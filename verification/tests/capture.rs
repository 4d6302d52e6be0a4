use osf_ort::capture::{
    buffer_size, choose_source, probed_size, still_goes_on, Source, VIDEO_HEIGHT, VIDEO_WIDTH,
};
use osf_ort::{mirror_bgr, BgrImage};

#[test]
fn sources_by_what_is_asked_for() {
    assert!(choose_source("0", true, true, true) == Source::Raw);
    assert!(choose_source("a.png", false, true, true) == Source::Still);
    assert!(choose_source("a.mp4", false, true, false) == Source::Video);
    assert!(choose_source("2", false, false, false) == Source::Camera { idx: 2 });
    assert!(choose_source("+7", false, false, false) == Source::Camera { idx: 7 });
    assert!(choose_source("front", false, false, false) == Source::Camera { idx: 0 });
    assert!(choose_source("4294967296", false, false, false) == Source::Camera { idx: 0 });
}

#[test]
fn sizes_out_of_a_probe() {
    assert_eq!(probed_size("1920,1080\n"), (1920, 1080));
    assert_eq!(probed_size("1280x720"), (1280, 720));
    assert_eq!(probed_size(" 800 , 600 ,"), (800, 600));
    assert_eq!(probed_size(""), (VIDEO_WIDTH, VIDEO_HEIGHT));
    assert_eq!(probed_size("wide,99"), (VIDEO_WIDTH, 99));
    assert_eq!(probed_size("320"), (320, VIDEO_HEIGHT));
}

#[test]
fn pictures_are_shown_once_or_again() {
    assert!(still_goes_on(false, false));
    assert!(!still_goes_on(true, false));
    assert!(still_goes_on(true, true));
}

#[test]
fn buffers_have_an_area() {
    assert_eq!(buffer_size(0, 5), (1, 5));
    assert_eq!(buffer_size(3, 0), (3, 1));
}

#[test]
fn mirrors_swap_columns() {
    let im = BgrImage {
        width: 2,
        height: 1,
        data: vec![1, 2, 3, 4, 5, 6],
    };
    assert_eq!(mirror_bgr(&im).data, vec![4, 5, 6, 1, 2, 3]);
    assert_eq!(mirror_bgr(&mirror_bgr(&im)).data, im.data);
}
