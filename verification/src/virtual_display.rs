//! A display that nobody sees: its number, the keys of its keyboard, the input that is put into
//! it, and the pictures that are taken of it.

use crate::text::decimal;
use crate::text::views;
use crate::text::write_decimal;
use vstd::prelude::*;

verus! {

/// The first display that is tried.
pub const FIRST_DISPLAY: u32 = 90;

/// The end of the displays that are tried.
pub const LAST_DISPLAY: u32 = 190;

/// The first display from the `n`-th on that is not taken; the very first where all are.
pub open spec fn free_from(taken: Seq<u32>, n: int) -> u32
    decreases LAST_DISPLAY - n,
{
    if n >= LAST_DISPLAY {
        FIRST_DISPLAY
    } else if taken.contains(n as u32) {
        free_from(taken, n + 1)
    } else {
        n as u32
    }
}

/// Picks a display that is not taken.
pub fn free_display(taken: &Vec<u32>) -> (r: u32)
    ensures
        r == free_from(taken@, FIRST_DISPLAY as int),
{
    let mut n: u32 = FIRST_DISPLAY;
    while n < LAST_DISPLAY
        invariant
            FIRST_DISPLAY <= n <= LAST_DISPLAY,
            free_from(taken@, n as int) == free_from(taken@, FIRST_DISPLAY as int),
        decreases LAST_DISPLAY - n,
    {
        let mut found: bool = false;
        let mut k: usize = 0;
        while k < taken.len()
            invariant
                k <= taken@.len(),
                found == taken@.take(k as int).contains(n),
            decreases taken.len() - k,
        {
            assert(taken@.take(k + 1) =~= taken@.take(k as int).push(taken@[k as int]));
            if taken[k] == n {
                found = true;
            }
            proof {
                let a = taken@.take(k as int);
                let b = taken@.take(k + 1);
                if a.contains(n) {
                    let i = choose|i: int| 0 <= i < a.len() && a[i] == n;
                    assert(b[i] == n);
                }
                if taken@[k as int] == n {
                    assert(b[k as int] == n);
                }
                if b.contains(n) {
                    let i = choose|i: int| 0 <= i < b.len() && b[i] == n;
                    if i < k {
                        assert(a[i] == n);
                    }
                }
            }
            k = k + 1;
        }
        assert(taken@.take(k as int) =~= taken@);
        if !found {
            return n;
        }
        n = n + 1;
    }
    FIRST_DISPLAY
}

/// A display that is picked is not taken, unless all that are tried are.
pub proof fn law_free_display_is_free(taken: Seq<u32>, n: int)
    requires
        FIRST_DISPLAY <= n <= LAST_DISPLAY,
    ensures
        FIRST_DISPLAY <= free_from(taken, n) < LAST_DISPLAY,
        taken.contains(free_from(taken, n)) ==> forall|d: u32|
            n <= d < LAST_DISPLAY ==> taken.contains(d),
    decreases LAST_DISPLAY - n,
{
    if n < LAST_DISPLAY && taken.contains(n as u32) {
        law_free_display_is_free(taken, n + 1);
    }
}

/// The arguments with which the server of a display is started.
pub open spec fn server_arguments(display: u32) -> Seq<Seq<char>> {
    seq![
        ":"@ + decimal(display as nat),
        "-screen"@,
        "0"@,
        "2560x1600x24"@,
        "-nolisten"@,
        "tcp"@,
        "-noreset"@,
    ]
}

/// The name of a display.
pub fn display_name(display: u32) -> (r: String)
    ensures
        r@ == ":"@ + decimal(display as nat),
{
    let mut s = ":".to_owned();
    s.append(write_decimal(display as u64).as_str());
    s
}

/// The arguments with which the server of a display is started.
pub fn server_args(display: u32) -> (r: Vec<String>)
    ensures
        views(r@) == server_arguments(display),
{
    let mut v: Vec<String> = Vec::new();
    v.push(display_name(display));
    v.push("-screen".to_owned());
    v.push("0".to_owned());
    v.push("2560x1600x24".to_owned());
    v.push("-nolisten".to_owned());
    v.push("tcp".to_owned());
    v.push("-noreset".to_owned());
    assert(views(v@) =~= server_arguments(display));
    v
}

/// A key: what it types, its code, and whether shift is held.
pub type Key = (u32, u8, bool);

/// The symbol of the left shift key.
pub const SHIFT_SYMBOL: u32 = 0xffe1;

/// The symbol of the left control key.
pub const CONTROL_SYMBOL: u32 = 0xffe3;

/// A keyboard: the keys, and the codes of shift and control.
pub struct Keyboard {
    pub keys: Seq<Key>,
    pub shift: u8,
    pub control: u8,
}

/// The key that types a symbol, from the `k`-th on.
pub open spec fn key_from(keys: Seq<Key>, symbol: u32, k: int) -> Option<Key>
    decreases keys.len() - k,
{
    if k < 0 || k >= keys.len() {
        None
    } else if keys[k].0 == symbol {
        Some(keys[k])
    } else {
        key_from(keys, symbol, k + 1)
    }
}

/// A keyboard with one more entry of the mapping: the first key that types a symbol keeps it.
pub open spec fn with_key(b: Keyboard, symbol: u32, code: u8, shifted: bool) -> Keyboard {
    if symbol == 0 {
        b
    } else {
        Keyboard {
            keys: if key_from(b.keys, symbol, 0) is Some {
                b.keys
            } else {
                b.keys.push((symbol, code, shifted))
            },
            shift: if symbol == SHIFT_SYMBOL {
                code
            } else {
                b.shift
            },
            control: if symbol == CONTROL_SYMBOL {
                code
            } else {
                b.control
            },
        }
    }
}

/// A keyboard with the entries of the mapping from `lo` on, `per` for each code; the first of a
/// code types its symbol alone, the second with shift, and the others are left out.
pub open spec fn with_mapping(b: Keyboard, symbols: Seq<u32>, per: int, lo: int, code: int) -> Keyboard
    decreases (if symbols.len() > lo {
        symbols.len() - lo
    } else {
        0
    }),
{
    if per <= 0 || lo >= symbols.len() {
        b
    } else {
        let one = with_key(b, symbols[lo], code as u8, false);
        let two = if per > 1 && lo + 1 < symbols.len() {
            with_key(one, symbols[lo + 1], code as u8, true)
        } else {
            one
        };
        with_mapping(two, symbols, per, lo + per, code + 1)
    }
}

/// A keyboard without keys, with the codes that shift and control mostly have.
pub open spec fn bare_keyboard() -> Keyboard {
    Keyboard { keys: Seq::empty(), shift: 50, control: 37 }
}

/// An input that is put into a display.
#[derive(Clone, Copy, PartialEq, Eq, Debug, Structural)]
pub struct Fake {
    pub kind: u8,
    pub detail: u8,
    pub x: i16,
    pub y: i16,
}

/// The kind of an input that presses a key.
pub const KEY_PRESS: u8 = 2;

/// The kind of an input that releases a key.
pub const KEY_RELEASE: u8 = 3;

/// The kind of an input that presses a button.
pub const BUTTON_PRESS: u8 = 4;

/// The kind of an input that releases a button.
pub const BUTTON_RELEASE: u8 = 5;

/// The kind of an input that moves the pointer.
pub const MOTION: u8 = 6;

/// An input of a kind at no place.
pub open spec fn plain_input(kind: u8, detail: u8) -> Fake {
    Fake { kind, detail, x: 0, y: 0 }
}

/// The inputs that hold a key while others are put in, where it is wanted.
pub open spec fn holding(wanted: bool, code: u8, inner: Seq<Fake>) -> Seq<Fake> {
    if wanted {
        seq![plain_input(KEY_PRESS, code)] + inner + seq![plain_input(KEY_RELEASE, code)]
    } else {
        inner
    }
}

/// The inputs that type a symbol: control and shift are held around the key.
pub open spec fn typed(b: Keyboard, symbol: u32, control: bool) -> Seq<Fake> {
    match key_from(b.keys, symbol, 0) {
        Some(key) => holding(
            control,
            b.control,
            holding(
                key.2,
                b.shift,
                seq![plain_input(KEY_PRESS, key.1), plain_input(KEY_RELEASE, key.1)],
            ),
        ),
        None => Seq::empty(),
    }
}

/// The inputs that turn a wheel by notches, at most ten.
pub open spec fn turned(notches: int, button: u8) -> Seq<Fake>
    decreases notches,
{
    if notches <= 0 {
        Seq::empty()
    } else if notches > 10 {
        turned(10, button)
    } else {
        turned(notches - 1, button) + seq![
            plain_input(BUTTON_PRESS, button),
            plain_input(BUTTON_RELEASE, button),
        ]
    }
}

/// A display that nobody sees, as its keyboard.
pub struct VirtualDisplay {
    keys: Vec<Key>,
    shift_keycode: u8,
    ctrl_keycode: u8,
}

impl View for VirtualDisplay {
    type V = Keyboard;

    closed spec fn view(&self) -> Keyboard {
        Keyboard { keys: self.keys@, shift: self.shift_keycode, control: self.ctrl_keycode }
    }
}

impl VirtualDisplay {
    fn find(&self, symbol: u32) -> (r: Option<Key>)
        ensures
            r == key_from(self@.keys, symbol, 0),
    {
        let mut k: usize = 0;
        while k < self.keys.len()
            invariant
                k <= self.keys@.len(),
                key_from(self@.keys, symbol, k as int) == key_from(self@.keys, symbol, 0),
            decreases self.keys.len() - k,
        {
            if self.keys[k].0 == symbol {
                return Some(self.keys[k]);
            }
            k = k + 1;
        }
        None
    }

    fn add_key(&mut self, symbol: u32, code: u8, shifted: bool)
        ensures
            final(self)@ == with_key(old(self)@, symbol, code, shifted),
    {
        if symbol == 0 {
            return;
        }
        if self.find(symbol).is_none() {
            self.keys.push((symbol, code, shifted));
        }
        if symbol == SHIFT_SYMBOL {
            self.shift_keycode = code;
        }
        if symbol == CONTROL_SYMBOL {
            self.ctrl_keycode = code;
        }
    }

    /// A display whose keyboard has a mapping: `per` symbols for each code, from `first` on.
    pub fn from_mapping(first: u8, per: usize, symbols: &Vec<u32>) -> (r: VirtualDisplay)
        requires
            per > 0,
            symbols@.len() <= (256 - first) * per,
        ensures
            r@ == with_mapping(bare_keyboard(), symbols@, per as int, 0, first as int),
    {
        let mut d = VirtualDisplay { keys: Vec::new(), shift_keycode: 50, ctrl_keycode: 37 };
        assert(d@.keys =~= Seq::<Key>::empty());
        let ghost want = with_mapping(d@, symbols@, per as int, 0, first as int);
        let mut lo: usize = 0;
        let mut code: u8 = first;
        let mut more: bool = symbols.len() > 0;
        assert(0 * per == 0) by (nonlinear_arith);
        while more
            invariant
                per > 0,
                first <= code,
                more == (lo < symbols@.len()),
                lo == (code - first) * per || !more,
                symbols@.len() <= (256 - first) * per,
                with_mapping(d@, symbols@, per as int, lo as int, code as int) == want,
            decreases symbols@.len() - lo, (if more {
                1int
            } else {
                0int
            }),
        {
            d.add_key(symbols[lo], code, false);
            if per > 1 && symbols.len() - lo > 1 {
                d.add_key(symbols[lo + 1], code, true);
            }
            if symbols.len() - lo <= per {
                more = false;
                proof {
                    assert(lo + per >= symbols@.len());
                    assert(with_mapping(d@, symbols@, per as int, lo + per, code + 1) == d@);
                    assert(with_mapping(d@, symbols@, per as int, symbols@.len() as int, code as int)
                        == d@);
                }
                lo = symbols.len();
            } else {
                proof {
                    let c = code - first;
                    assert(c + 1 < 256 - first) by (nonlinear_arith)
                        requires
                            c * per + per < (256 - first) * per,
                            per > 0,
                    ;
                    assert((c + 1) * per == c * per + per) by (nonlinear_arith);
                }
                lo = lo + per;
                code = code + 1;
            }
        }
        d
    }

    /// The input that moves the pointer.
    pub fn motion(&self, x: i16, y: i16) -> (r: Fake)
        ensures
            r == (Fake { kind: MOTION, detail: 0, x, y }),
    {
        Fake { kind: MOTION, detail: 0, x, y }
    }

    /// The inputs that press or release a button at a place.
    pub fn button(&self, x: i16, y: i16, button: u8, press: bool) -> (r: Vec<Fake>)
        ensures
            r@ == seq![
                Fake { kind: MOTION, detail: 0, x, y },
                plain_input(
                    if press {
                        BUTTON_PRESS
                    } else {
                        BUTTON_RELEASE
                    },
                    button,
                ),
            ],
    {
        let kind: u8 = if press {
            BUTTON_PRESS
        } else {
            BUTTON_RELEASE
        };
        let mut v: Vec<Fake> = Vec::new();
        v.push(self.motion(x, y));
        v.push(Fake { kind, detail: button, x: 0, y: 0 });
        assert(v@ =~= seq![Fake { kind: MOTION, detail: 0, x, y }, plain_input(kind, button)]);
        v
    }

    /// The inputs that turn the wheels at a place: the upright one first, then the level one,
    /// each by its notches, at most ten.
    pub fn scroll(&self, x: i16, y: i16, up: bool, notches_y: u32, left: bool, notches_x: u32) -> (r:
        Vec<Fake>)
        ensures
            r@ == seq![Fake { kind: MOTION, detail: 0, x, y }] + turned(
                notches_y as int,
                if up {
                    4
                } else {
                    5
                },
            ) + turned(
                notches_x as int,
                if left {
                    6
                } else {
                    7
                },
            ),
    {
        let mut v: Vec<Fake> = Vec::new();
        v.push(self.motion(x, y));
        assert(v@ =~= seq![Fake { kind: MOTION, detail: 0, x, y }]);
        turn(
            &mut v,
            notches_y,
            if up {
                4
            } else {
                5
            },
        );
        turn(
            &mut v,
            notches_x,
            if left {
                6
            } else {
                7
            },
        );
        v
    }

    /// The inputs that type a symbol, with control where it is wanted; none where no key types
    /// it.
    pub fn key(&self, symbol: u32, control: bool) -> (r: Vec<Fake>)
        ensures
            r@ == typed(self@, symbol, control),
    {
        let mut v: Vec<Fake> = Vec::new();
        let key = match self.find(symbol) {
            Some(key) => key,
            None => {
                assert(v@ =~= Seq::<Fake>::empty());
                return v;
            },
        };
        if control {
            v.push(Fake { kind: KEY_PRESS, detail: self.ctrl_keycode, x: 0, y: 0 });
        }
        if key.2 {
            v.push(Fake { kind: KEY_PRESS, detail: self.shift_keycode, x: 0, y: 0 });
        }
        v.push(Fake { kind: KEY_PRESS, detail: key.1, x: 0, y: 0 });
        v.push(Fake { kind: KEY_RELEASE, detail: key.1, x: 0, y: 0 });
        if key.2 {
            v.push(Fake { kind: KEY_RELEASE, detail: self.shift_keycode, x: 0, y: 0 });
        }
        if control {
            v.push(Fake { kind: KEY_RELEASE, detail: self.ctrl_keycode, x: 0, y: 0 });
        }
        assert(v@ =~= typed(self@, symbol, control));
        v
    }
}

fn turn(v: &mut Vec<Fake>, notches: u32, button: u8)
    ensures
        final(v)@ == old(v)@ + turned(notches as int, button),
{
    let ghost before = v@;
    let n: u32 = if notches > 10 {
        10
    } else {
        notches
    };
    let mut k: u32 = 0;
    assert(v@ =~= before + turned(0, button));
    while k < n
        invariant
            k <= n <= 10,
            v@ == before + turned(k as int, button),
        decreases n - k,
    {
        let ghost so_far = turned(k as int, button);
        v.push(Fake { kind: BUTTON_PRESS, detail: button, x: 0, y: 0 });
        v.push(Fake { kind: BUTTON_RELEASE, detail: button, x: 0, y: 0 });
        k = k + 1;
        assert(v@ =~= before + (so_far + seq![
            plain_input(BUTTON_PRESS, button),
            plain_input(BUTTON_RELEASE, button),
        ]));
    }
}

/// What is typed releases every key that it presses, the last pressed first: read backwards,
/// the inputs are the same with presses and releases exchanged.
pub proof fn law_typing_releases_what_it_presses(b: Keyboard, symbol: u32, control: bool, i: int)
    requires
        0 <= i < typed(b, symbol, control).len(),
    ensures
        ({
            let t = typed(b, symbol, control);
            let other = t[t.len() - 1 - i];
            &&& other.detail == t[i].detail
            &&& t[i].kind == (if i < t.len() - 1 - i {
                KEY_PRESS
            } else {
                KEY_RELEASE
            })
            &&& i != t.len() - 1 - i
        }),
{
    let key = key_from(b.keys, symbol, 0)->0;
    let one = seq![plain_input(KEY_PRESS, key.1), plain_input(KEY_RELEASE, key.1)];
    let two = holding(key.2, b.shift, one);
    assert(two.len() == if key.2 {
        4int
    } else {
        2int
    });
}

/// The first key that types a symbol keeps it, whatever else is mapped.
pub proof fn law_first_key_wins(b: Keyboard, symbols: Seq<u32>, per: int, lo: int, code: int, symbol: u32)
    requires
        lo >= 0,
        key_from(b.keys, symbol, 0) is Some,
    ensures
        key_from(with_mapping(b, symbols, per, lo, code).keys, symbol, 0) == key_from(
            b.keys,
            symbol,
            0,
        ),
    decreases (if symbols.len() > lo {
        symbols.len() - lo
    } else {
        0
    }),
{
    if per > 0 && lo < symbols.len() {
        let one = with_key(b, symbols[lo], code as u8, false);
        lemma_push_keeps(b.keys, (symbols[lo], code as u8, false), symbol, 0);
        if per > 1 && lo + 1 < symbols.len() {
            let two = with_key(one, symbols[lo + 1], code as u8, true);
            lemma_push_keeps(one.keys, (symbols[lo + 1], code as u8, true), symbol, 0);
            law_first_key_wins(two, symbols, per, lo + per, code + 1, symbol);
        } else {
            law_first_key_wins(one, symbols, per, lo + per, code + 1, symbol);
        }
    }
}

proof fn lemma_push_keeps(keys: Seq<Key>, key: Key, symbol: u32, k: int)
    requires
        0 <= k,
        key_from(keys, symbol, k) is Some,
    ensures
        key_from(keys.push(key), symbol, k) == key_from(keys, symbol, k),
    decreases keys.len() - k,
{
    if k < keys.len() && keys[k].0 != symbol {
        lemma_push_keeps(keys, key, symbol, k + 1);
    }
}

/// A picture of a window with the colours in the order of red, green and blue, and nothing
/// seen through. What does not make a whole pixel at the end stays.
pub open spec fn recolored(data: Seq<u8>) -> Seq<u8> {
    Seq::new(
        data.len(),
        |i: int|
            if i >= data.len() / 4 * 4 {
                data[i]
            } else if i % 4 == 0 {
                data[i + 2]
            } else if i % 4 == 2 {
                data[i - 2]
            } else if i % 4 == 3 {
                255u8
            } else {
                data[i]
            },
    )
}

/// The picture of a window of a size from the bytes that the display gave; `None` where there
/// are too few.
pub fn frame(width: u16, height: u16, data: Vec<u8>) -> (r: Option<(u32, u32, Vec<u8>)>)
    ensures
        match r {
            Some((w, h, px)) => {
                &&& data@.len() >= width * height * 4
                &&& w == width
                &&& h == height
                &&& px@ == recolored(data@)
            },
            None => data@.len() < width * height * 4,
        },
{
    assert(0 <= width * height <= 65535 * 65535) by (nonlinear_arith)
        requires
            width <= 65535,
            height <= 65535,
    ;
    let need: u64 = width as u64 * height as u64;
    let bytes: u64 = need * 4;
    if (data.len() as u64) < bytes {
        return None;
    }
    let ghost before = data@;
    let mut px = data;
    let n: usize = px.len() / 4;
    let ghost want = recolored(before);
    let mut k: usize = 0;
    while k < n
        invariant
            k <= n,
            n == before.len() / 4,
            px@.len() == before.len(),
            before.len() <= usize::MAX,
            want == recolored(before),
            forall|i: int| 0 <= i < 4 * k ==> px@[i] == want[i],
            forall|i: int| 4 * k <= i < px@.len() ==> px@[i] == before[i],
        decreases n - k,
    {
        let at: usize = 4 * k;
        let a: u8 = px[at];
        let b: u8 = px[at + 2];
        px.set(at, b);
        px.set(at + 2, a);
        px.set(at + 3, 255);
        proof {
            assert(at % 4 == 0 && (at + 1) % 4 == 1 && (at + 2) % 4 == 2 && (at + 3) % 4 == 3);
            assert(at + 3 < before.len() / 4 * 4);
        }
        k = k + 1;
    }
    assert(px@ =~= want);
    Some((width as u32, height as u32, px))
}

/// A picture stays as large as the bytes were, and no pixel of it is seen through.
pub proof fn law_frame_is_opaque(data: Seq<u8>, k: int)
    requires
        0 <= k < data.len() / 4,
    ensures
        recolored(data).len() == data.len(),
        recolored(data)[4 * k + 3] == 255,
        recolored(data)[4 * k] == data[4 * k + 2],
        recolored(data)[4 * k + 1] == data[4 * k + 1],
        recolored(data)[4 * k + 2] == data[4 * k],
{
}

proof fn lemma_turned(n: int, button: u8)
    requires
        0 <= n <= 10,
    ensures
        turned(n, button).len() == 2 * n,
        forall|i: int|
            0 <= i < 2 * n ==> (#[trigger] turned(n, button)[i]).detail == button && turned(
                n,
                button,
            )[i].kind == (if i % 2 == 0 {
                4u8
            } else {
                5u8
            }),
    decreases n,
{
    if n > 0 {
        lemma_turned(n - 1, button);
    }
}

/// The wheel is turned as often as asked, up to ten times, each time by a press and a release of
/// its button.
pub proof fn law_wheel_turns_as_often_as_asked(n: int, button: u8, i: int)
    requires
        0 <= n,
        0 <= i < turned(n, button).len(),
    ensures
        turned(n, button).len() == 2 * (if n > 10 {
            10
        } else {
            n
        }),
        turned(n, button)[i].detail == button,
        turned(n, button)[i].kind == (if i % 2 == 0 {
            4u8
        } else {
            5u8
        }),
{
    lemma_turned(
        if n > 10 {
            10
        } else {
            n
        },
        button,
    );
}

/// A key is typed by its code: pressed and released, with shift held where its symbol asks for it
/// and control where the user does; a symbol without a key types nothing.
pub proof fn law_keys_are_typed_by_their_codes(b: Keyboard, symbol: u32, code: u8)
    ensures
        key_from(b.keys, symbol, 0) is None ==> typed(b, symbol, false).len() == 0,
        key_from(b.keys, symbol, 0) == Some((symbol, code, false)) ==> typed(b, symbol, false) == seq![
            Fake { kind: 2, detail: code, x: 0, y: 0 },
            Fake { kind: 3, detail: code, x: 0, y: 0 },
        ],
        key_from(b.keys, symbol, 0) == Some((symbol, code, true)) ==> typed(b, symbol, false) == seq![
            Fake { kind: 2, detail: b.shift, x: 0, y: 0 },
            Fake { kind: 2, detail: code, x: 0, y: 0 },
            Fake { kind: 3, detail: code, x: 0, y: 0 },
            Fake { kind: 3, detail: b.shift, x: 0, y: 0 },
        ],
        key_from(b.keys, symbol, 0) == Some((symbol, code, false)) ==> typed(b, symbol, true) == seq![
            Fake { kind: 2, detail: b.control, x: 0, y: 0 },
            Fake { kind: 2, detail: code, x: 0, y: 0 },
            Fake { kind: 3, detail: code, x: 0, y: 0 },
            Fake { kind: 3, detail: b.control, x: 0, y: 0 },
        ],
{
    if let Some(key) = key_from(b.keys, symbol, 0) {
        if key == (symbol, code, true) {
            assert(typed(b, symbol, false) =~= seq![
                Fake { kind: 2, detail: b.shift, x: 0, y: 0 },
                Fake { kind: 2, detail: code, x: 0, y: 0 },
                Fake { kind: 3, detail: code, x: 0, y: 0 },
                Fake { kind: 3, detail: b.shift, x: 0, y: 0 },
            ]);
        }
        if key == (symbol, code, false) {
            assert(typed(b, symbol, true) =~= seq![
                Fake { kind: 2, detail: b.control, x: 0, y: 0 },
                Fake { kind: 2, detail: code, x: 0, y: 0 },
                Fake { kind: 3, detail: code, x: 0, y: 0 },
                Fake { kind: 3, detail: b.control, x: 0, y: 0 },
            ]);
        }
    }
}

proof fn lemma_key_pushed(keys: Seq<Key>, key: Key, k: int)
    requires
        0 <= k <= keys.len(),
        key_from(keys, key.0, k) is None,
    ensures
        key_from(keys.push(key), key.0, k) == Some(key),
    decreases keys.len() - k,
{
    if k < keys.len() {
        assert(keys.push(key)[k] == keys[k]);
        lemma_key_pushed(keys, key, k + 1);
    }
}

/// A new symbol is typed by the key that brings it, shifted as told; the keys of shift and control
/// are learnt by their symbols.
pub proof fn law_symbols_are_learnt(b: Keyboard, symbol: u32, code: u8, shifted: bool)
    requires
        symbol != 0,
    ensures
        key_from(b.keys, symbol, 0) is None ==> key_from(
            with_key(b, symbol, code, shifted).keys,
            symbol,
            0,
        ) == Some((symbol, code, shifted)),
        with_key(b, 0xffe1, code, shifted).shift == code,
        with_key(b, 0xffe3, code, shifted).control == code,
        with_key(b, 0, code, shifted) == b,
        symbol != 0xffe1 ==> with_key(b, symbol, code, shifted).shift == b.shift,
        symbol != 0xffe3 ==> with_key(b, symbol, code, shifted).control == b.control,
{
    if key_from(b.keys, symbol, 0) is None {
        lemma_key_pushed(b.keys, (symbol, code, shifted), 0);
    }
}

/// A picture of the display becomes one in the usual order of colours: red and blue change places,
/// green stays, and every pixel is opaque.
pub proof fn law_colours_change_places(data: Seq<u8>, p: int)
    requires
        0 <= p,
        4 * p + 3 < data.len(),
    ensures
        recolored(data)[4 * p] == data[4 * p + 2],
        recolored(data)[4 * p + 1] == data[4 * p + 1],
        recolored(data)[4 * p + 2] == data[4 * p],
        recolored(data)[4 * p + 3] == 255,
{
}

} // verus!
