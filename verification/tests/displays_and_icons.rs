use aether::icon::{IconAtlas, Slot, ATLAS_SIZE};
use aether::virtual_display::{frame, free_display, server_args, Fake, VirtualDisplay};
use image::{DynamicImage, ImageFormat, RgbaImage};

fn png(w: u32, h: u32) -> Vec<u8> {
    let mut out = std::io::Cursor::new(Vec::new());
    let img = RgbaImage::from_fn(w, h, |x, y| image::Rgba([x as u8, y as u8, 3, 255]));
    DynamicImage::ImageRgba8(img).write_to(&mut out, ImageFormat::Png).expect("png");
    out.into_inner()
}

fn overlap(a: &Slot, b: &Slot) -> bool {
    a.x < b.x + b.w && b.x < a.x + a.w && a.y < b.y + b.h && b.y < a.y + a.h
}

#[test]
fn the_first_free_display_is_taken() {
    assert_eq!(free_display(&vec![]), 90);
    assert_eq!(free_display(&vec![91, 90, 95]), 92);
    let all: Vec<u32> = (90..190).collect();
    assert_eq!(free_display(&all), 90);
    assert_eq!(server_args(99)[0], ":99");
}

#[test]
fn the_first_key_that_types_a_symbol_keeps_it() {
    // Two codes with three symbols each: a/A, then shift, and a again with control.
    let d = VirtualDisplay::from_mapping(8, 3, &vec![97, 65, 1, 0xffe1, 0, 1, 97, 0xffe3]);
    let k = |detail: u8, kind: u8| Fake { kind, detail, x: 0, y: 0 };
    assert_eq!(d.key(97, false), vec![k(8, 2), k(8, 3)]);
    assert_eq!(d.key(65, false), vec![k(9, 2), k(8, 2), k(8, 3), k(9, 3)]);
    assert_eq!(
        d.key(65, true),
        vec![k(10, 2), k(9, 2), k(8, 2), k(8, 3), k(9, 3), k(10, 3)]
    );
    assert!(d.key(1, false).is_empty());
    let bare = VirtualDisplay::from_mapping(8, 1, &vec![97]);
    assert_eq!(bare.key(97, true), vec![k(37, 2), k(8, 2), k(8, 3), k(37, 3)]);
}

#[test]
fn wheels_turn_ten_notches_at_most() {
    let d = VirtualDisplay::from_mapping(8, 1, &vec![]);
    let s = d.scroll(3, 4, true, 25, false, 1);
    assert_eq!(s.len(), 1 + 20 + 2);
    assert_eq!(s[0], Fake { kind: 6, detail: 0, x: 3, y: 4 });
    assert_eq!(s[1], Fake { kind: 4, detail: 4, x: 0, y: 0 });
    assert_eq!(s[22], Fake { kind: 5, detail: 7, x: 0, y: 0 });
    let b = d.button(1, 2, 3, false);
    assert_eq!(b[1], Fake { kind: 5, detail: 3, x: 0, y: 0 });
}

#[test]
fn frames_are_recolored() {
    let f = frame(1, 2, vec![1, 2, 3, 4, 5, 6, 7, 8, 9]).expect("enough");
    assert_eq!(f, (1, 2, vec![3, 2, 1, 255, 7, 6, 5, 255, 9]));
    assert!(frame(2, 2, vec![0; 15]).is_none());
}

#[test]
fn icons_are_packed_without_overlap() {
    let mut atlas = IconAtlas::new();
    let mut slots = Vec::new();
    for k in 0..40u32 {
        let bytes = png(20 + k * 3, 30 + k);
        let (slot, pixels) = atlas.load_bytes(&format!("icon{k}"), &bytes).expect("room");
        let pixels = pixels.expect("new");
        assert_eq!(pixels.len() as u32, 4 * slot.w * slot.h);
        slots.push(slot);
    }
    assert_eq!(slots[0], Slot { x: 0, y: 0, w: 20, h: 30 });
    assert_eq!(slots[1].x, 22);
    for (i, a) in slots.iter().enumerate() {
        assert!(a.x + a.w <= ATLAS_SIZE && a.y + a.h <= ATLAS_SIZE);
        assert!(a.w <= 96 && a.h <= 96);
        for b in &slots[i + 1..] {
            assert!(!overlap(a, b));
        }
    }
    let (again, pixels) = atlas.load_bytes("icon0", b"garbage").expect("known");
    assert_eq!(again, slots[0]);
    assert!(pixels.is_none());
    assert_eq!(atlas.get("icon0"), Some(slots[0]));
    assert_eq!(atlas.get("other"), None);
    assert!(atlas.load_bytes("broken", b"garbage").is_none());
}

#[test]
fn a_large_icon_is_scaled_down_in_proportion() {
    let mut atlas = IconAtlas::new();
    let (slot, _) = atlas.load_bytes("wide", &png(200, 100)).expect("room");
    assert_eq!((slot.w, slot.h), (96, 48));
    let (small, pixels) = atlas.load("file", "x/icon.PNG", &png(2, 1)).expect("room");
    assert_eq!((small.w, small.h), (2, 1));
    assert_eq!(pixels, Some(vec![0, 0, 3, 255, 1, 0, 3, 255]));
    assert!(atlas.load("named", "x/icon.txt", &png(2, 1)).is_none());
}

#[test]
fn a_full_atlas_refuses_icons_and_keeps_the_others() {
    let mut atlas = IconAtlas::new();
    let mut n = 0;
    while atlas.place(&format!("k{n}"), 96, 96).is_some() {
        n += 1;
    }
    assert_eq!(n, 100);
    assert!(atlas.place("more", 96, 96).is_none());
    assert_eq!(atlas.get("k0"), Some(Slot { x: 0, y: 0, w: 96, h: 96 }));
}

#[test]
fn an_icon_takes_no_more_pixels_than_it_shows() {
    let mut atlas = IconAtlas::new();
    let pixels: Vec<u8> = (0..12).collect();
    let long = RgbaImage::from_raw(2, 1, pixels).expect("enough");
    let icon = DynamicImage::ImageRgba8(long);
    let (slot, shown) = atlas.add_icon("cut", icon).expect("room");
    assert_eq!((slot.w, slot.h), (2, 1));
    assert_eq!(shown, vec![0, 1, 2, 3, 4, 5, 6, 7]);
    assert_eq!(atlas.get("cut"), Some(slot));
}
