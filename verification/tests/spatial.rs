use cascade::quota::{is_one_word, KeyRequest, Quotas};
use cascade::{adjust_bbox_zoom, global_bbox_for_zoom, tile_dist_squared, zoom_out, MatchOpts};

#[test]
fn distances_between_tiles_are_squared() {
    assert_eq!(tile_dist_squared(1, 1, 1, 1), 0);
    assert_eq!(tile_dist_squared(1, 1, 1, 0), 1);
    assert_eq!(tile_dist_squared(1, 1, 0, 0), 2);
    assert_eq!(tile_dist_squared(0, 0, u16::MAX, u16::MAX), 2 * 65535 * 65535);
}

#[test]
fn tiles_are_found_at_lower_zoom_levels() {
    assert_eq!(zoom_out(1000, 8), 3);
    assert_eq!(zoom_out(2000, 8), 7);
    assert_eq!(zoom_out(1000, 0), 1000);
    assert_eq!(zoom_out(u16::MAX, 16), 0);
    assert_eq!(zoom_out(u16::MAX, 400), 0);
}

#[test]
fn boxes_move_between_zoom_levels() {
    assert_eq!(adjust_bbox_zoom([4, 5, 6, 7], 8, 8), [4, 5, 6, 7]);
    assert_eq!(adjust_bbox_zoom([4, 5, 6, 7], 8, 7), [2, 2, 3, 3]);
    assert_eq!(adjust_bbox_zoom([4, 5, 6, 7], 8, 9), [8, 10, 13, 15]);
}

#[test]
fn the_global_box_holds_all_tiles() {
    assert_eq!(global_bbox_for_zoom(0), vec![[0, 0, 0, 0]]);
    assert_eq!(global_bbox_for_zoom(6), vec![[0, 0, 63, 63]]);
    assert_eq!(global_bbox_for_zoom(16), vec![[0, 0, u16::MAX, u16::MAX]]);
}

#[test]
fn options_move_between_zoom_levels() {
    let opts = MatchOpts { bbox: Some([4, 5, 6, 7]), proximity: Some([5, 6]), zoom: 8 };
    let lower = opts.adjust_to_zoom(7);
    assert_eq!(lower.zoom, 7);
    assert_eq!(lower.bbox, Some([2, 2, 3, 3]));
    assert_eq!(lower.proximity, Some([2, 3]));
    assert_eq!(opts.adjust_to_zoom(8), opts);
}

#[test]
fn boxes_are_narrowed() {
    let opts = MatchOpts { bbox: Some([10, 10, 90, 90]), proximity: None, zoom: 14 };
    let narrowed = opts.augment_bbox(false, Some([50, 0, 200, 60]));
    assert_eq!(narrowed.bbox, Some([50, 10, 90, 60]));
    assert_eq!(opts.augment_bbox(false, None), opts);
}

#[test]
fn nearby_boxes_lie_around_the_proximity_point() {
    let opts = MatchOpts { bbox: None, proximity: Some([100, 10]), zoom: 14 };
    let narrowed = opts.augment_bbox(true, None);
    let b = narrowed.bbox.unwrap();
    assert!(b[0] < 100 && 100 < b[2]);
    assert_eq!(b[1], 0);
    assert_eq!(100 - b[0], b[2] - 100);
    let nowhere = MatchOpts { bbox: None, proximity: None, zoom: 14 };
    assert_eq!(nowhere.augment_bbox(true, None).bbox, None);
}

#[test]
fn single_words_have_one_bit() {
    assert!(is_one_word(1));
    assert!(is_one_word(1 << 31));
    assert!(!is_one_word(0));
    assert!(!is_one_word(3));
    assert!(!is_one_word(u32::MAX));
}

#[test]
fn quotas_are_charged() {
    let request = KeyRequest {
        is_range: true,
        one_word: true,
        one_letter: true,
        slow: false,
        nearby_only: false,
        hopeless: false,
        fresh: true,
    };
    let mut quotas = Quotas::new();
    for _ in 0..8 {
        assert!(quotas.charge(request));
    }
    assert!(!quotas.charge(request));
    assert!(quotas.charge(KeyRequest { one_letter: false, ..request }));
    assert!(quotas.charge(KeyRequest { fresh: false, ..request }));
    assert!(quotas.charge(KeyRequest { is_range: false, ..request }));

    let slow = KeyRequest { slow: true, one_letter: false, ..request };
    assert!(!quotas.charge(KeyRequest { hopeless: true, ..slow }));
    for _ in 0..8 {
        assert!(quotas.charge(slow));
    }
    assert!(!quotas.charge(slow));
    assert!(quotas.charge(KeyRequest { nearby_only: true, ..slow }));
}
