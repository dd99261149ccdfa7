use ipv6_placer::CanvasAddress;
use ipv6_placer::Pixel;
use ipv6_placer::Placer;
use ipv6_placer::echo_request_frame;

fn prefix() -> CanvasAddress {
    CanvasAddress {
        s0: 0x2a01,
        s1: 0x04f8,
        s2: 0xc012,
        s3: 0xf8e6,
        s4: 0,
        s5: 0,
        s6: 0,
        s7: 0,
    }
}

#[test]
fn plain_pixel_address() {
    let placer = Placer::new(prefix());
    let pixel = Pixel { x: 5, y: 7, r: 1, g: 2, b: 3, big: false };
    let a = placer.build_address(&pixel);
    assert_eq!(a.s0, 0x2a01);
    assert_eq!(a.s1, 0x04f8);
    assert_eq!(a.s2, 0xc012);
    assert_eq!(a.s3, 0xf8e6);
    assert_eq!(a.s4, 0x1005);
    assert_eq!(a.s5, 7);
    assert_eq!(a.s6, 1);
    assert_eq!(a.s7, 0x0203);
}

#[test]
fn big_pixel_address_discriminant() {
    let placer = Placer::new(prefix());
    let plain = Pixel { x: 0x0abc, y: 9, r: 255, g: 0, b: 0, big: false };
    let big = Pixel { x: 0x0abc, y: 9, r: 255, g: 0, b: 0, big: true };
    let a_plain = placer.build_address(&plain);
    let a_big = placer.build_address(&big);
    assert_eq!(a_plain.s4 & 0xf000, 0x1000);
    assert_eq!(a_big.s4 & 0xf000, 0x2000);
    assert_eq!(a_plain.s4 & 0x0fff, 0x0abc);
    assert_eq!(a_big.s4 & 0x0fff, 0x0abc);
}

#[test]
fn x_at_top_of_range_decodes() {
    let placer = Placer::new(prefix());
    let pixel = Pixel { x: 4095, y: 0xffff, r: 0, g: 255, b: 255, big: false };
    let a = placer.build_address(&pixel);
    assert_eq!(a.s4, 0x1fff);
    assert_eq!(a.s4 & 0x0fff, 4095);
    assert_eq!(a.s5, 0xffff);
    assert_eq!(a.s7, 0xffff);
}

#[test]
fn batch_addresses_follow_batch_order() {
    let placer = Placer::new(prefix());
    let batch = vec![
        Pixel { x: 1, y: 2, r: 3, g: 4, b: 5, big: false },
        Pixel { x: 6, y: 7, r: 8, g: 9, b: 10, big: true },
    ];
    let addresses = placer.build_batch_addresses(&batch);
    assert_eq!(addresses.len(), 2);
    assert_eq!(addresses[0], placer.build_address(&batch[0]));
    assert_eq!(addresses[1], placer.build_address(&batch[1]));
    assert_eq!(addresses[0].s4, 0x1001);
    assert_eq!(addresses[1].s4, 0x2006);
}

#[test]
fn echo_request_frame_bytes() {
    let frame = echo_request_frame();
    assert_eq!(frame, vec![0x80, 0, 0, 0, 0, 0, 0, 0]);
}
