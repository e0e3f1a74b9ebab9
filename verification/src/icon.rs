//! The atlas of icons: one picture into which the icons of extensions are packed.

use crate::text::same;
use image::DynamicImage;
use image::ImageFormat;
use vstd::prelude::*;

verus! {

/// The width and the height of the atlas.
pub const ATLAS_SIZE: u32 = 1024;

/// The space between two icons of the atlas.
pub const PAD: u32 = 2;

/// The width and the height that no icon of the atlas exceeds.
pub const ICON_LIMIT: u32 = 96;

/// `image::DynamicImage`.
#[verifier::external_type_specification]
#[verifier::external_body]
pub struct ExDynamicImage(DynamicImage);

/// The picture that `image::load_from_memory` reads from bytes.
pub uninterp spec fn image_in(bytes: Seq<u8>) -> Option<DynamicImage>;

/// `image::ImageFormat`: a format of pictures.
#[verifier::external_type_specification]
#[verifier::external_body]
pub struct ExImageFormat(ImageFormat);

/// The format that the name of a file tells.
pub uninterp spec fn format_of(path: Seq<char>) -> Option<ImageFormat>;

/// The picture that is read from bytes in a format.
pub uninterp spec fn image_as(bytes: Seq<u8>, format: ImageFormat) -> Option<DynamicImage>;

/// The picture that is read from the bytes of a file, its format told by the file's name.
pub open spec fn image_in_file(path: Seq<char>, bytes: Seq<u8>) -> Option<DynamicImage> {
    match format_of(path) {
        Some(format) => image_as(bytes, format),
        None => None,
    }
}

/// The width and the height of a picture.
pub uninterp spec fn image_size(img: DynamicImage) -> (u32, u32);

/// The pixels of a picture, four bytes each.
pub uninterp spec fn image_pixels(img: DynamicImage) -> Seq<u8>;

/// `image::load_from_memory`: what is read rests on the bytes alone.
#[verifier::external_body]
fn load_image(bytes: &[u8]) -> (r: Option<DynamicImage>)
    ensures
        r == image_in(bytes@),
{
    image::load_from_memory(bytes).ok()
}

/// `ImageFormat::from_path`: the format rests on the path alone.
#[verifier::external_body]
fn tell_format(path: &str) -> (r: Option<ImageFormat>)
    ensures
        r == format_of(path@),
{
    ImageFormat::from_path(path).ok()
}

/// `image::load_from_memory_with_format`: what is read rests on the bytes and on the format.
#[verifier::external_body]
fn load_image_as(bytes: &[u8], format: ImageFormat) -> (r: Option<DynamicImage>)
    ensures
        r == image_as(bytes@, format),
{
    image::load_from_memory_with_format(bytes, format).ok()
}

/// `GenericImageView::dimensions` of a `DynamicImage`: its width and its height.
#[verifier::external_body]
fn size_of_image(img: &DynamicImage) -> (r: (u32, u32))
    ensures
        r == image_size(*img),
{
    image::GenericImageView::dimensions(img)
}

/// The size to which `DynamicImage::resize` scales a picture of a size to fit two bounds.
pub uninterp spec fn fitted_size(width: u32, height: u32, w: u32, h: u32) -> (u32, u32);

/// Whether a picture is one that `DynamicImage::resize` with `FilterType::Lanczos3` makes of
/// another for two bounds, on whatever machine.
pub uninterp spec fn scales_to(img: DynamicImage, w: u32, h: u32, scaled: DynamicImage) -> bool;

/// Whether a size is one of `width` by `height` scaled to a bound `w`: one side is the bound,
/// and the other is in proportion, give or take less than a pixel, and at least one pixel.
pub open spec fn in_proportion(size: (u32, u32), width: u32, height: u32, w: u32) -> bool {
    &&& size.0 == w
    &&& size.1 >= 1
    &&& height * w - width <= size.1 * width
    &&& size.1 * width <= height * w + width
}

/// `DynamicImage::resize` with `FilterType::Lanczos3`: the picture scaled to fit the bounds, at
/// least one pixel wide and high. Its size rests on the size that it had and on the bounds: the
/// side that has to shrink more, or may grow less, becomes its bound, and the other follows in
/// proportion. Of its pixels only that they are such a picture's: the filter weighs them with
/// sines, whose last digits differ between machines.
#[verifier::external_body]
fn fit_image(img: &DynamicImage, w: u32, h: u32) -> (r: DynamicImage)
    requires
        image_size(*img).0 > 0,
        image_size(*img).1 > 0,
        w > 0,
        h > 0,
    ensures
        scales_to(*img, w, h, r),
        image_size(r) == fitted_size(image_size(*img).0, image_size(*img).1, w, h),
        0 < image_size(r).0 <= w,
        0 < image_size(r).1 <= h,
        w * image_size(*img).1 <= h * image_size(*img).0 ==> in_proportion(
            image_size(r),
            image_size(*img).0,
            image_size(*img).1,
            w,
        ),
        h * image_size(*img).0 <= w * image_size(*img).1 ==> in_proportion(
            (image_size(r).1, image_size(r).0),
            image_size(*img).1,
            image_size(*img).0,
            h,
        ),
{
    img.resize(w, h, image::imageops::FilterType::Lanczos3)
}

/// `DynamicImage::to_rgba8`: the pixels, row by row. A picture may hold more bytes than its size
/// asks for.
#[verifier::external_body]
fn pixels_of_image(img: &DynamicImage) -> (r: Vec<u8>)
    ensures
        r@ == image_pixels(*img),
        r@.len() >= 4 * image_size(*img).0 * image_size(*img).1,
{
    img.to_rgba8().into_raw()
}

/// The place of an icon in the atlas.
#[derive(Clone, Copy, PartialEq, Eq, Debug, Structural)]
pub struct Slot {
    pub x: u32,
    pub y: u32,
    pub w: u32,
    pub h: u32,
}

/// Whether two places have a pixel in common.
pub open spec fn overlap(a: Slot, b: Slot) -> bool {
    &&& a.x < b.x + b.w
    &&& b.x < a.x + a.w
    &&& a.y < b.y + b.h
    &&& b.y < a.y + a.h
}

/// Whether a place lies inside the atlas.
pub open spec fn inside(s: Slot) -> bool {
    s.x + s.w <= ATLAS_SIZE && s.y + s.h <= ATLAS_SIZE && s.w > 0 && s.h > 0
}

/// Where the next icon goes, and what was placed so far.
pub struct Packing {
    pub x: int,
    pub y: int,
    pub shelf: int,
    pub slots: Seq<(Seq<char>, Slot)>,
}

/// The place of the `k`-th or a later entry with a key.
pub open spec fn slot_from(slots: Seq<(Seq<char>, Slot)>, key: Seq<char>, k: int) -> Option<Slot>
    decreases slots.len() - k,
{
    if k < 0 || k >= slots.len() {
        None
    } else if slots[k].0 == key {
        Some(slots[k].1)
    } else {
        slot_from(slots, key, k + 1)
    }
}

/// The packing when an icon of a width begins a new shelf where the old one has no room.
pub open spec fn shelved(p: Packing, w: int) -> Packing {
    if p.x + w + PAD > ATLAS_SIZE {
        Packing { x: 0, y: p.y + p.shelf + PAD, shelf: 0, slots: p.slots }
    } else {
        p
    }
}

/// The packing with one more icon, and its place; none where the atlas is full.
pub open spec fn packed(p: Packing, key: Seq<char>, w: u32, h: u32) -> (Packing, Option<Slot>) {
    let q = shelved(p, w as int);
    if q.y + h > ATLAS_SIZE {
        (q, None)
    } else {
        let s = Slot { x: q.x as u32, y: q.y as u32, w, h };
        (
            Packing {
                x: q.x + w + PAD,
                y: q.y,
                shelf: if q.shelf >= h {
                    q.shelf
                } else {
                    h as int
                },
                slots: q.slots.push((key, s)),
            },
            Some(s),
        )
    }
}

/// Whether a place is clear of what comes next: on a shelf above, or to the left on the same
/// shelf.
pub open spec fn is_behind(s: Slot, p: Packing) -> bool {
    ||| s.y + s.h + PAD <= p.y
    ||| s.y == p.y && s.h <= p.shelf && s.x + s.w + PAD <= p.x
}

/// Whether a packing is sound: every place inside the atlas and behind the next, and no two with
/// a pixel in common.
pub open spec fn is_packed(p: Packing) -> bool {
    &&& 0 <= p.x <= ATLAS_SIZE
    &&& 0 <= p.y <= 2 * ATLAS_SIZE
    &&& 0 <= p.shelf <= ICON_LIMIT
    &&& p.x == 0 ==> p.shelf == 0
    &&& p.x > 0 ==> p.y + p.shelf <= ATLAS_SIZE
    &&& forall|i: int| 0 <= i < p.slots.len() ==> inside((#[trigger] p.slots[i]).1) && is_behind(
        p.slots[i].1,
        p,
    )
    &&& forall|i: int, j: int|
        0 <= i < j < p.slots.len() ==> !overlap((#[trigger] p.slots[i]).1, (#[trigger] p.slots[j]).1)
}

/// A sound packing stays sound with every icon that is added, and the icons that were placed
/// keep their places.
pub proof fn law_packing_stays_sound(p: Packing, key: Seq<char>, w: u32, h: u32)
    requires
        is_packed(p),
        0 < w <= ICON_LIMIT,
        0 < h <= ICON_LIMIT,
    ensures
        is_packed(packed(p, key, w, h).0),
        packed(p, key, w, h).1 is Some ==> inside(packed(p, key, w, h).1->0),
        forall|i: int|
            0 <= i < p.slots.len() ==> #[trigger] packed(p, key, w, h).0.slots[i] == p.slots[i],
{
    let q = shelved(p, w as int);
    let n = packed(p, key, w, h).0;
    assert forall|i: int| 0 <= i < p.slots.len() implies is_behind(p.slots[i].1, q) && is_behind(
        p.slots[i].1,
        n,
    ) && #[trigger] n.slots[i] == p.slots[i] by {
        let s = p.slots[i].1;
        assert(inside(p.slots[i].1) && is_behind(p.slots[i].1, p));
    }
    if packed(p, key, w, h).1 is Some {
        let s = packed(p, key, w, h).1->0;
        assert forall|i: int, j: int| 0 <= i < j < n.slots.len() implies !overlap(
            (#[trigger] n.slots[i]).1,
            (#[trigger] n.slots[j]).1,
        ) by {
            if j < p.slots.len() {
                assert(!overlap(p.slots[i].1, p.slots[j].1));
            } else {
                assert(is_behind(p.slots[i].1, q));
            }
        }
        assert forall|i: int| 0 <= i < n.slots.len() implies inside((#[trigger] n.slots[i]).1)
            && is_behind(n.slots[i].1, n) by {
            if i < p.slots.len() {
                assert(inside(p.slots[i].1));
                assert(n.slots[i] == p.slots[i]);
            }
        }
    } else {
        assert(n.slots == p.slots);
    }
}

/// The atlas of icons.
pub struct IconAtlas {
    cursor_x: u32,
    cursor_y: u32,
    shelf_h: u32,
    slots: Vec<(String, Slot)>,
}

impl View for IconAtlas {
    type V = Packing;

    closed spec fn view(&self) -> Packing {
        Packing {
            x: self.cursor_x as int,
            y: self.cursor_y as int,
            shelf: self.shelf_h as int,
            slots: Seq::new(self.slots@.len(), |i: int| (self.slots@[i].0@, self.slots@[i].1)),
        }
    }
}

/// Whether a picture has pixels and the size of an icon.
pub open spec fn is_icon(icon: DynamicImage) -> bool {
    0 < image_size(icon).0 <= ICON_LIMIT && 0 < image_size(icon).1 <= ICON_LIMIT
}

/// The size of the icon that is kept of a picture that is too large: its longer side is the
/// limit, and the other follows in proportion.
pub open spec fn is_icon_size(size: (u32, u32), width: u32, height: u32) -> bool {
    &&& size == fitted_size(width, height, ICON_LIMIT, ICON_LIMIT)
    &&& width >= height ==> in_proportion(size, width, height, ICON_LIMIT)
    &&& height >= width ==> in_proportion((size.1, size.0), height, width, ICON_LIMIT)
}

/// Whether a picture is the icon that is kept of another: one that is too large is scaled down,
/// and any other is kept as it is.
pub open spec fn is_icon_of(icon: DynamicImage, img: DynamicImage) -> bool {
    &&& is_icon(icon)
    &&& if is_icon(img) {
        icon == img
    } else {
        &&& scales_to(img, ICON_LIMIT, ICON_LIMIT, icon)
        &&& is_icon_size(image_size(icon), image_size(img).0, image_size(img).1)
    }
}

/// What adding an icon under a key makes of a packing, and the place and the pixels where it
/// was added.
pub open spec fn added(p: Packing, key: Seq<char>, icon: DynamicImage) -> (
    Packing,
    Option<(Slot, Seq<u8>)>,
) {
    let (w, h) = image_size(icon);
    let (q, slot) = packed(p, key, w, h);
    (
        q,
        match slot {
            Some(s) => Some((s, image_pixels(icon).take(4 * w * h))),
            None => None,
        },
    )
}

/// Whether a picture was added under a key. One without pixels is not; of one that is too
/// large, some icon that is scaled down from it is.
pub open spec fn adds(
    p: Packing,
    key: Seq<char>,
    img: DynamicImage,
    after: (Packing, Option<(Slot, Seq<u8>)>),
) -> bool {
    if image_size(img).0 == 0 || image_size(img).1 == 0 {
        after == (p, None::<(Slot, Seq<u8>)>)
    } else {
        exists|icon: DynamicImage| #[trigger]
            is_icon_of(icon, img) && after == added(p, key, icon)
    }
}

/// An icon with its pixels, as one that was loaded just now.
pub open spec fn new_icon(r: Option<(Slot, Seq<u8>)>) -> Option<(Slot, Option<Seq<u8>>)> {
    match r {
        Some((s, px)) => Some((s, Some(px))),
        None => None,
    }
}

/// Whether a picture was loaded under a key: nothing happens where the key is known, and where
/// there is no picture.
pub open spec fn loads(
    p: Packing,
    key: Seq<char>,
    img: Option<DynamicImage>,
    after: Packing,
    r: Option<(Slot, Option<Seq<u8>>)>,
) -> bool {
    match slot_from(p.slots, key, 0) {
        Some(s) => after == p && r == Some((s, None::<Seq<u8>>)),
        None => match img {
            Some(i) => exists|one: Option<(Slot, Seq<u8>)>| #[trigger]
                adds(p, key, i, (after, one)) && r == new_icon(one),
            None => after == p && r is None,
        },
    }
}

/// The content of an added icon.
pub open spec fn placed_view(r: Option<(Slot, Vec<u8>)>) -> Option<(Slot, Seq<u8>)> {
    match r {
        Some((s, px)) => Some((s, px@)),
        None => None,
    }
}

/// The content of a loaded icon.
pub open spec fn loaded_view(r: Option<(Slot, Option<Vec<u8>>)>) -> Option<
    (Slot, Option<Seq<u8>>),
> {
    match r {
        Some((s, Some(px))) => Some((s, Some(px@))),
        Some((s, None)) => Some((s, None)),
        None => None,
    }
}

impl IconAtlas {
    /// An empty atlas.
    pub fn new() -> (r: IconAtlas)
        ensures
            r@.x == 0,
            r@.y == 0,
            r@.shelf == 0,
            r@.slots.len() == 0,
            is_packed(r@),
    {
        IconAtlas { cursor_x: 0, cursor_y: 0, shelf_h: 0, slots: Vec::new() }
    }

    /// The place of the icon with a key.
    pub fn get(&self, key: &str) -> (r: Option<Slot>)
        ensures
            r == slot_from(self@.slots, key@, 0),
    {
        let mut k: usize = 0;
        while k < self.slots.len()
            invariant
                k <= self.slots@.len(),
                slot_from(self@.slots, key@, k as int) == slot_from(self@.slots, key@, 0),
            decreases self.slots.len() - k,
        {
            assert(self@.slots[k as int] == (self.slots@[k as int].0@, self.slots@[k as int].1));
            if same(self.slots[k].0.as_str(), key) {
                return Some(self.slots[k].1);
            }
            k = k + 1;
        }
        None
    }

    /// Finds a place for an icon of a size under a key; `None` where the atlas is full.
    pub fn place(&mut self, key: &str, w: u32, h: u32) -> (r: Option<Slot>)
        requires
            is_packed(old(self)@),
            0 < w <= ICON_LIMIT,
            0 < h <= ICON_LIMIT,
        ensures
            (final(self)@, r) == packed(old(self)@, key@, w, h),
            is_packed(final(self)@),
            r is Some ==> inside(r->0),
    {
        proof {
            law_packing_stays_sound(self@, key@, w, h);
        }
        let ghost before = self@;
        if self.cursor_x + w + PAD > ATLAS_SIZE {
            self.cursor_x = 0;
            self.cursor_y = self.cursor_y + self.shelf_h + PAD;
            self.shelf_h = 0;
        }
        assert(self@.slots =~= before.slots);
        if self.cursor_y + h > ATLAS_SIZE {
            return None;
        }
        let s = Slot { x: self.cursor_x, y: self.cursor_y, w, h };
        self.cursor_x = self.cursor_x + w + PAD;
        if self.shelf_h < h {
            self.shelf_h = h;
        }
        self.slots.push((key.to_owned(), s));
        assert(self@.slots =~= before.slots.push((key@, s)));
        Some(s)
    }

    /// Adds an icon under a key: its place, and the pixels to put there.
    pub fn add_icon(&mut self, key: &str, icon: DynamicImage) -> (r: Option<(Slot, Vec<u8>)>)
        requires
            is_packed(old(self)@),
            is_icon(icon),
        ensures
            (final(self)@, placed_view(r)) == added(old(self)@, key@, icon),
            is_packed(final(self)@),
            match r {
                Some((s, px)) => px@.len() == 4 * s.w * s.h,
                None => true,
            },
    {
        let (w, h) = size_of_image(&icon);
        match self.place(key, w, h) {
            Some(s) => {
                let mut pixels = pixels_of_image(&icon);
                assert(4 * w * h <= 4 * 96 * 96) by (nonlinear_arith)
                    requires
                        0 <= w <= 96,
                        0 <= h <= 96,
                ;
                assert(w * h <= 96 * 96) by (nonlinear_arith)
                    requires
                        0 <= w <= 96,
                        0 <= h <= 96,
                ;
                let count: u32 = w * h * 4;
                assert(count == 4 * w * h) by (nonlinear_arith)
                    requires
                        count == w * h * 4,
                ;
                pixels.truncate(count as usize);
                Some((s, pixels))
            },
            None => None,
        }
    }

    /// Adds a picture under a key: its place, and the pixels to put there.
    pub fn add_image(&mut self, key: &str, img: DynamicImage) -> (r: Option<(Slot, Vec<u8>)>)
        requires
            is_packed(old(self)@),
        ensures
            adds(old(self)@, key@, img, (final(self)@, placed_view(r))),
            is_packed(final(self)@),
            match r {
                Some((s, px)) => px@.len() == 4 * s.w * s.h,
                None => true,
            },
    {
        let (w, h) = size_of_image(&img);
        if w == 0 || h == 0 {
            return None;
        }
        if w > ICON_LIMIT || h > ICON_LIMIT {
            let icon = fit_image(&img, ICON_LIMIT, ICON_LIMIT);
            assert(is_icon_of(icon, img));
            self.add_icon(key, icon)
        } else {
            assert(is_icon_of(img, img));
            self.add_icon(key, img)
        }
    }

    /// Adds a picture that was read, unless the key is known.
    fn take_image(&mut self, key: &str, img: Option<DynamicImage>) -> (r: Option<
        (Slot, Option<Vec<u8>>),
    >)
        requires
            is_packed(old(self)@),
            slot_from(old(self)@.slots, key@, 0) is None,
        ensures
            loads(old(self)@, key@, img, final(self)@, loaded_view(r)),
            is_packed(final(self)@),
    {
        match img {
            Some(i) => {
                let one = self.add_image(key, i);
                let ghost view = placed_view(one);
                assert(adds(old(self)@, key@, i, (self@, view)));
                match one {
                    Some((s, px)) => Some((s, Some(px))),
                    None => None,
                }
            },
            None => None,
        }
    }

    /// The place of the icon with a key; one that is not known yet is read from bytes and added,
    /// and comes with the pixels to put there.
    pub fn load_bytes(&mut self, key: &str, bytes: &[u8]) -> (r: Option<(Slot, Option<Vec<u8>>)>)
        requires
            is_packed(old(self)@),
        ensures
            loads(old(self)@, key@, image_in(bytes@), final(self)@, loaded_view(r)),
            is_packed(final(self)@),
    {
        if let Some(s) = self.get(key) {
            return Some((s, None));
        }
        let img = load_image(bytes);
        self.take_image(key, img)
    }

    /// As for bytes, with the format told by the name of the file that they were read from.
    pub fn load(&mut self, key: &str, path: &str, bytes: &[u8]) -> (r: Option<
        (Slot, Option<Vec<u8>>),
    >)
        requires
            is_packed(old(self)@),
        ensures
            loads(
                old(self)@,
                key@,
                image_in_file(path@, bytes@),
                final(self)@,
                loaded_view(r),
            ),
            is_packed(final(self)@),
    {
        if let Some(s) = self.get(key) {
            return Some((s, None));
        }
        let img = match tell_format(path) {
            Some(format) => load_image_as(bytes, format),
            None => None,
        };
        self.take_image(key, img)
    }
}

proof fn lemma_slot_pushed(slots: Seq<(Seq<char>, Slot)>, key: Seq<char>, s: Slot, k: int)
    requires
        0 <= k <= slots.len(),
        slot_from(slots, key, k) is None,
    ensures
        slot_from(slots.push((key, s)), key, k) == Some(s),
    decreases slots.len() - k,
{
    if k < slots.len() {
        assert(slots.push((key, s))[k] == slots[k]);
        lemma_slot_pushed(slots, key, s, k + 1);
    }
}

/// A picture gets a place of its own size, and is found there by its name.
pub proof fn law_placed_pictures_are_found(p: Packing, key: Seq<char>, w: u32, h: u32)
    requires
        is_packed(p),
        slot_from(p.slots, key, 0) is None,
        0 < w <= 96,
        0 < h <= 96,
        packed(p, key, w, h).1 is Some,
    ensures
        packed(p, key, w, h).1->0.w == w,
        packed(p, key, w, h).1->0.h == h,
        slot_from(packed(p, key, w, h).0.slots, key, 0) == packed(p, key, w, h).1,
        packed(p, key, w, h).1->0.x + w <= 1024,
        packed(p, key, w, h).1->0.y + h <= 1024,
{
    law_packing_stays_sound(p, key, w, h);
    lemma_slot_pushed(p.slots, key, packed(p, key, w, h).1->0, 0);
}

/// A picture is refused only where no shelf has room for it.
pub proof fn law_pictures_are_refused_for_want_of_room(p: Packing, key: Seq<char>, w: u32, h: u32)
    requires
        is_packed(p),
        0 < w <= 96,
        0 < h <= 96,
    ensures
        p.x + w + 2 <= 1024 && p.y + h <= 1024 ==> packed(p, key, w, h).1 is Some,
        p.x + w + 2 > 1024 && p.y + p.shelf + 2 + h <= 1024 ==> packed(p, key, w, h).1 is Some,
        p.y + h > 1024 ==> packed(p, key, w, h).1 is None,
{
}

} // verus!
