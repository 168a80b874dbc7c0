use kernel::memory::address::{Frame, Page, PageRange};

#[test]
fn frame_containing_address_rounds_down() {
    assert_eq!(Frame::containing_address(0).number, 0);
    assert_eq!(Frame::containing_address(0x1234).number, 1);
    assert_eq!(Frame::containing_address(0x1fff).number, 1);
    assert_eq!(Frame::containing_address(0x2000).number, 2);
    assert_eq!(Frame::containing_address(0xf_ffff_ffff_ffff).number, 0xff_ffff_ffff);
}

#[test]
fn frame_from_start_address_wants_a_boundary() {
    assert_eq!(Frame::from_start_address(0x1000), Some(Frame { number: 1 }));
    assert_eq!(Frame::from_start_address(0), Some(Frame { number: 0 }));
    assert_eq!(Frame::from_start_address(0x1001), None);
    assert_eq!(Frame::from_start_address(0x1fff), None);
}

#[test]
fn frame_start_address_is_number_times_size() {
    assert_eq!(Frame { number: 0xb8 }.start_address(), 0xb8000);
    assert_eq!(Frame { number: 0 }.start_address(), 0);
    assert_eq!(Frame { number: 0xff_ffff_ffff }.start_address(), 0xf_ffff_ffff_f000);
}

#[test]
fn page_containing_address_in_both_halves() {
    assert_eq!(Page::containing_address(0x4000_0000), Some(Page { number: 0x4_0000 }));
    assert_eq!(Page::containing_address(0x4000_0fff), Some(Page { number: 0x4_0000 }));
    assert_eq!(Page::containing_address(0x7fff_ffff_ffff), Some(Page { number: 0x7_ffff_ffff }));
    assert_eq!(
        Page::containing_address(0xffff_8000_0000_0000),
        Some(Page { number: 0x8_0000_0000 })
    );
    assert_eq!(
        Page::containing_address(0xffff_ffff_ffff_ffff),
        Some(Page { number: 0xf_ffff_ffff })
    );
}

#[test]
fn page_containing_address_sign_extends_bit_47() {
    assert_eq!(Page::containing_address(0x8000_0000_0000), Some(Page { number: 0x8_0000_0000 }));
    assert_eq!(Page::containing_address(0xffff_ffff_f123), Some(Page { number: 0xf_ffff_ffff }));
}

#[test]
fn page_containing_address_refuses_what_is_not_canonical() {
    assert_eq!(Page::containing_address(0x1_0000_0000_0000), None);
    assert_eq!(Page::containing_address(0x8000_0000_0000_0000), None);
    assert_eq!(Page::containing_address(0xffff_7fff_ffff_ffff), None);
}

#[test]
fn page_start_address_is_canonical() {
    assert_eq!(Page { number: 1 }.start_address(), 0x1000);
    assert_eq!(Page { number: 0x4_0000 }.start_address(), 0x4000_0000);
    assert_eq!(Page { number: 0x7_ffff_ffff }.start_address(), 0x7fff_ffff_f000);
    assert_eq!(Page { number: 0x8_0000_0000 }.start_address(), 0xffff_8000_0000_0000);
    assert_eq!(Page { number: 0xf_ffff_ffff }.start_address(), 0xffff_ffff_ffff_f000);
}

#[test]
fn page_range_len() {
    let range = PageRange::inclusive(Page { number: 3 }, Page { number: 7 });
    assert_eq!(range.len(), 5);
    assert_eq!(PageRange::inclusive(Page { number: 3 }, Page { number: 3 }).len(), 1);
    assert_eq!(PageRange::inclusive(Page { number: 4 }, Page { number: 3 }).len(), 0);
}
