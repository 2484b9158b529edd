use soft_renderer::colour::Colour;

#[test]
fn test_new_sets_the_channels() {
    let c = Colour::new(42, 170, 255);
    assert_eq!(c, Colour { r: 42, g: 170, b: 255, a: 0 });
}

#[test]
fn test_from_u32_unpacks_0rgb() {
    assert_eq!(Colour::from_u32(1234567), Colour::new(0x12, 0xd6, 0x87));
    assert_eq!(Colour::from_u32(961644), Colour::new(14, 172, 108));
    assert_eq!(Colour::from_u32(2766878), Colour::new(42, 56, 30));
    assert_eq!(Colour::from_u32(0), Colour::new(0, 0, 0));
    assert_eq!(Colour::from_u32(0x00ff_ffff), Colour::new(255, 255, 255));
}

#[test]
fn test_from_u32_ignores_the_top_byte() {
    assert_eq!(Colour::from_u32(0xab12_3456), Colour::new(0x12, 0x34, 0x56));
    assert_eq!(Colour::from_u32(0xff00_0000), Colour::new(0, 0, 0));
}

#[test]
fn test_as_0rgb_packs_the_channels() {
    assert_eq!(Colour::new(59, 59, 59).as_0rgb(), 0x003b_3b3b);
    assert_eq!(Colour::new(1, 204, 3).as_0rgb(), 0x0001_cc03);
    assert_eq!(Colour::new(255, 0, 0).as_0rgb(), 0x00ff_0000);
    assert_eq!(Colour::new(0, 255, 0).as_0rgb(), 0x0000_ff00);
    assert_eq!(Colour::new(0, 0, 255).as_0rgb(), 0x0000_00ff);
}

#[test]
fn test_as_0rgb_leaves_alpha_out() {
    let c = Colour { r: 1, g: 2, b: 3, a: 200 };
    assert_eq!(c.as_0rgb(), 0x0001_0203);
}

#[test]
fn test_pack_and_unpack_are_inverse() {
    for rgb in [0u32, 1, 255, 256, 65535, 65536, 1234567, 0x00ff_ffff] {
        assert_eq!(Colour::from_u32(rgb).as_0rgb(), rgb);
    }
    for (r, g, b) in [(0u8, 0u8, 0u8), (255, 255, 255), (1, 2, 3), (42, 170, 255)] {
        assert_eq!(Colour::from_u32(Colour::new(r, g, b).as_0rgb()), Colour::new(r, g, b));
    }
    assert_eq!(Colour::from_u32(0xfe12_3456).as_0rgb(), 0x0012_3456);
}

#[test]
fn test_add_intensity_adds_to_every_channel() {
    let mut c = Colour::new(10, 20, 30);
    c.add_intensity(5);
    assert_eq!(c, Colour::new(15, 25, 35));
    c.add_intensity(0);
    assert_eq!(c, Colour::new(15, 25, 35));
}

#[test]
fn test_add_intensity_stops_at_255() {
    let mut c = Colour::new(250, 100, 0);
    c.add_intensity(10);
    assert_eq!(c, Colour::new(255, 110, 10));
    c.add_intensity(255);
    assert_eq!(c, Colour::new(255, 255, 255));
}

#[test]
fn test_add_intensity_keeps_alpha() {
    let mut c = Colour { r: 0, g: 0, b: 0, a: 9 };
    c.add_intensity(1);
    assert_eq!(c, Colour { r: 1, g: 1, b: 1, a: 9 });
}
