//! Configuration: key binding and colour parsing, the configuration file's
//! data model with its defaults, and the resolved runtime `LayoutConfig`.
use vstd::prelude::*;

verus! {

// =============================================================================
// Strings
// =============================================================================

/// The lowercase form of a string, as `str::to_lowercase` computes it
/// (Unicode's Lowercase mapping, applied character by character).
pub uninterp spec fn lowercase(s: Seq<char>) -> Seq<char>;

/// Calls `str::to_lowercase`; its result is named by `lowercase`.
#[verifier::external_body]
pub(crate) fn lowercase_string(s: &str) -> (r: String)
    ensures
        r@ == lowercase(s@),
{
    s.to_lowercase()
}

/// Compares two strings character by character.
pub fn str_eq(a: &str, b: &str) -> (r: bool)
    ensures
        r == (a@ == b@),
{
    let n = a.unicode_len();
    if n != b.unicode_len() {
        return false;
    }
    let mut i: usize = 0;
    while i < n
        invariant
            n == a@.len(),
            n == b@.len(),
            i <= n,
            forall|j: int| 0 <= j < i ==> a@[j] == b@[j],
        decreases n - i,
    {
        if a.get_char(i) != b.get_char(i) {
            return false;
        }
        i = i + 1;
    }
    assert(a@ =~= b@);
    true
}

// =============================================================================
// Key names
// =============================================================================

/// A key whose keysym is its own character code: a lowercase letter, a digit,
/// or one of `[`, `]` and `/`.
pub open spec fn is_plain_key_char(c: char) -> bool {
    ||| (0x61 <= c as u32 && c as u32 <= 0x7a)
    ||| (0x30 <= c as u32 && c as u32 <= 0x39)
    ||| c == '['
    ||| c == ']'
    ||| c == '/'
}

/// The X11 keysym of a lowercase key name, if the name is known.
pub open spec fn keysym_spec(name: Seq<char>) -> Option<u32> {
    if name.len() == 1 && is_plain_key_char(name[0]) {
        Some(name[0] as u32)
    } else if name == "return"@ || name == "enter"@ {
        Some(0xff0d)
    } else if name == "tab"@ {
        Some(0xff09)
    } else if name == "escape"@ || name == "esc"@ {
        Some(0xff1b)
    } else if name == "space"@ {
        Some(0x20)
    } else if name == "backspace"@ {
        Some(0xff08)
    } else if name == "delete"@ {
        Some(0xffff)
    } else if name == "page_up"@ || name == "pageup"@ || name == "pgup"@ || name == "prior"@ {
        Some(0xff55)
    } else if name == "page_down"@ || name == "pagedown"@ || name == "pgdn"@ || name == "next"@ {
        Some(0xff56)
    } else if name == "left"@ {
        Some(0xff51)
    } else if name == "up"@ {
        Some(0xff52)
    } else if name == "right"@ {
        Some(0xff53)
    } else if name == "down"@ {
        Some(0xff54)
    } else if name == "home"@ {
        Some(0xff50)
    } else if name == "end"@ {
        Some(0xff57)
    } else if name == "bracketleft"@ {
        Some(0x5b)
    } else if name == "bracketright"@ {
        Some(0x5d)
    } else if name == "slash"@ {
        Some(0x2f)
    } else {
        function_keysym(name)
    }
}

/// The keysyms of the function keys `f1` to `f12`, which run from 0xffbe up.
pub open spec fn function_keysym(name: Seq<char>) -> Option<u32> {
    if name == "f1"@ {
        Some(0xffbe)
    } else if name == "f2"@ {
        Some(0xffbf)
    } else if name == "f3"@ {
        Some(0xffc0)
    } else if name == "f4"@ {
        Some(0xffc1)
    } else if name == "f5"@ {
        Some(0xffc2)
    } else if name == "f6"@ {
        Some(0xffc3)
    } else if name == "f7"@ {
        Some(0xffc4)
    } else if name == "f8"@ {
        Some(0xffc5)
    } else if name == "f9"@ {
        Some(0xffc6)
    } else if name == "f10"@ {
        Some(0xffc7)
    } else if name == "f11"@ {
        Some(0xffc8)
    } else if name == "f12"@ {
        Some(0xffc9)
    } else {
        None
    }
}

fn function_keysym_of(name: &str) -> (r: Option<u32>)
    ensures
        r == function_keysym(name@),
{
    if str_eq(name, "f1") {
        Some(0xffbe)
    } else if str_eq(name, "f2") {
        Some(0xffbf)
    } else if str_eq(name, "f3") {
        Some(0xffc0)
    } else if str_eq(name, "f4") {
        Some(0xffc1)
    } else if str_eq(name, "f5") {
        Some(0xffc2)
    } else if str_eq(name, "f6") {
        Some(0xffc3)
    } else if str_eq(name, "f7") {
        Some(0xffc4)
    } else if str_eq(name, "f8") {
        Some(0xffc5)
    } else if str_eq(name, "f9") {
        Some(0xffc6)
    } else if str_eq(name, "f10") {
        Some(0xffc7)
    } else if str_eq(name, "f11") {
        Some(0xffc8)
    } else if str_eq(name, "f12") {
        Some(0xffc9)
    } else {
        None
    }
}

/// The keysym of a key name that is already in lowercase.
pub fn keysym_for_name(name: &str) -> (r: Option<u32>)
    ensures
        r == keysym_spec(name@),
{
    if name.unicode_len() == 1 {
        let c = name.get_char(0);
        let code = c as u32;
        if (0x61 <= code && code <= 0x7a) || (0x30 <= code && code <= 0x39) || c == '['
            || c == ']' || c == '/' {
            return Some(code);
        }
    }
    if str_eq(name, "return") || str_eq(name, "enter") {
        Some(0xff0d)
    } else if str_eq(name, "tab") {
        Some(0xff09)
    } else if str_eq(name, "escape") || str_eq(name, "esc") {
        Some(0xff1b)
    } else if str_eq(name, "space") {
        Some(0x20)
    } else if str_eq(name, "backspace") {
        Some(0xff08)
    } else if str_eq(name, "delete") {
        Some(0xffff)
    } else if str_eq(name, "page_up") || str_eq(name, "pageup") || str_eq(name, "pgup")
        || str_eq(name, "prior") {
        Some(0xff55)
    } else if str_eq(name, "page_down") || str_eq(name, "pagedown") || str_eq(name, "pgdn")
        || str_eq(name, "next") {
        Some(0xff56)
    } else if str_eq(name, "left") {
        Some(0xff51)
    } else if str_eq(name, "up") {
        Some(0xff52)
    } else if str_eq(name, "right") {
        Some(0xff53)
    } else if str_eq(name, "down") {
        Some(0xff54)
    } else if str_eq(name, "home") {
        Some(0xff50)
    } else if str_eq(name, "end") {
        Some(0xff57)
    } else if str_eq(name, "bracketleft") {
        Some(0x5b)
    } else if str_eq(name, "bracketright") {
        Some(0x5d)
    } else if str_eq(name, "slash") {
        Some(0x2f)
    } else {
        function_keysym_of(name)
    }
}

/// Converts a key name, in any case, to its X11 keysym.
pub fn key_to_keysym(key: &str) -> (r: Option<u32>)
    ensures
        r == keysym_spec(lowercase(key@)),
{
    let lower = lowercase_string(key);
    keysym_for_name(lower.as_str())
}

// =============================================================================
// Key bindings
// =============================================================================

/// A key binding ready for an X11 key grab.
#[derive(Debug, Clone, Copy, PartialEq, Eq, Structural)]
pub struct ParsedBinding {
    pub keysym: u32,
    pub modifiers: u16,
}

/// X11 modifier masks.
pub const SHIFT_MASK: u16 = 1;
pub const CONTROL_MASK: u16 = 4;
pub const MOD1_MASK: u16 = 8;
pub const MOD4_MASK: u16 = 64;

/// The modifier mask named by a lowercase modifier name; unknown names give no
/// modifier.
pub open spec fn modifier_mask_spec(name: Seq<char>) -> u16 {
    if name == "mod4"@ || name == "super"@ || name == "win"@ {
        MOD4_MASK
    } else if name == "shift"@ {
        SHIFT_MASK
    } else if name == "control"@ || name == "ctrl"@ {
        CONTROL_MASK
    } else if name == "mod1"@ || name == "alt"@ {
        MOD1_MASK
    } else {
        0
    }
}

/// The modifier mask of a modifier name that is already in lowercase.
pub fn modifier_mask(name: &str) -> (r: u16)
    ensures
        r == modifier_mask_spec(name@),
{
    if str_eq(name, "mod4") || str_eq(name, "super") || str_eq(name, "win") {
        MOD4_MASK
    } else if str_eq(name, "shift") {
        SHIFT_MASK
    } else if str_eq(name, "control") || str_eq(name, "ctrl") {
        CONTROL_MASK
    } else if str_eq(name, "mod1") || str_eq(name, "alt") {
        MOD1_MASK
    } else {
        0
    }
}

/// The pieces of `s` between its `+` signs, in order; there is always at least
/// one, and a `+` at either end gives an empty piece there.
pub open spec fn plus_pieces(s: Seq<char>) -> Seq<Seq<char>>
    decreases s.len(),
{
    if s.len() == 0 {
        seq![Seq::empty()]
    } else {
        let init = plus_pieces(s.drop_last());
        if s.last() == '+' {
            init.push(Seq::empty())
        } else {
            init.update(init.len() - 1, init.last().push(s.last()))
        }
    }
}

/// The modifiers that a sequence of modifier names, in any case, sets together.
pub open spec fn modifiers_of(names: Seq<Seq<char>>) -> u16
    decreases names.len(),
{
    if names.len() == 0 {
        0
    } else {
        modifiers_of(names.drop_last()) | modifier_mask_spec(lowercase(names.last()))
    }
}

/// What `parse_key_binding` gives for `s`: the last `+`-separated piece names
/// the key, the pieces before it name modifiers.
pub open spec fn binding_spec(s: Seq<char>) -> Option<ParsedBinding> {
    let parts = plus_pieces(s);
    match keysym_spec(lowercase(parts.last())) {
        Some(k) => Some(ParsedBinding { keysym: k, modifiers: modifiers_of(parts.drop_last()) }),
        None => None,
    }
}

proof fn lemma_plus_pieces_nonempty(s: Seq<char>)
    ensures
        plus_pieces(s).len() >= 1,
    decreases s.len(),
{
    if s.len() > 0 {
        lemma_plus_pieces_nonempty(s.drop_last());
    }
}

/// Parses a key binding such as "Mod4+Shift+h" into its keysym and modifiers.
pub fn parse_key_binding(s: &str) -> (r: Option<ParsedBinding>)
    ensures
        r == binding_spec(s@),
{
    let n = s.unicode_len();
    let mut start: usize = 0;
    let mut modifiers: u16 = 0;
    let mut i: usize = 0;
    proof {
        assert(s@.take(0) =~= Seq::<char>::empty());
    }
    while i < n
        invariant
            n == s@.len(),
            start <= i <= n,
            plus_pieces(s@.take(i as int)).len() >= 1,
            plus_pieces(s@.take(i as int)).last() =~= s@.subrange(start as int, i as int),
            modifiers == modifiers_of(plus_pieces(s@.take(i as int)).drop_last()),
        decreases n - i,
    {
        let c = s.get_char(i);
        let ghost before = plus_pieces(s@.take(i as int));
        proof {
            assert(s@.take(i + 1).drop_last() =~= s@.take(i as int));
            assert(s@.take(i + 1).last() == c);
        }
        if c == '+' {
            let piece = s.substring_char(start, i);
            let lower = lowercase_string(piece);
            let mask = modifier_mask(lower.as_str());
            modifiers = modifiers | mask;
            proof {
                let after = plus_pieces(s@.take(i + 1));
                assert(after == before.push(Seq::empty()));
                assert(after.drop_last() =~= before);
            }
            start = i + 1;
        } else {
            proof {
                let after = plus_pieces(s@.take(i + 1));
                assert(after.drop_last() =~= before.drop_last());
                assert(s@.subrange(start as int, i + 1) =~= s@.subrange(start as int, i as int).push(c));
            }
        }
        i = i + 1;
    }
    proof {
        assert(s@.take(n as int) =~= s@);
    }
    let key = s.substring_char(start, n);
    match key_to_keysym(key) {
        Some(keysym) => Some(ParsedBinding { keysym, modifiers }),
        None => None,
    }
}

// =============================================================================
// Colours
// =============================================================================

/// `s` without its leading `#` characters.
pub open spec fn skip_hashes(s: Seq<char>) -> Seq<char>
    decreases s.len(),
{
    if s.len() > 0 && s[0] == '#' {
        skip_hashes(s.drop_first())
    } else {
        s
    }
}

/// The value of one digit in base `radix` (10 or 16; letters in either
/// case).
pub open spec fn digit_value(c: char, radix: u32) -> Option<nat> {
    if 0x30 <= c as u32 && c as u32 <= 0x39 {
        Some((c as u32 - 0x30) as nat)
    } else if radix == 16 && 0x61 <= c as u32 && c as u32 <= 0x66 {
        Some((c as u32 - 0x61 + 10) as nat)
    } else if radix == 16 && 0x41 <= c as u32 && c as u32 <= 0x46 {
        Some((c as u32 - 0x41 + 10) as nat)
    } else {
        None
    }
}

/// The number that a string of digits in base `radix` denotes, if every
/// character is one.
pub open spec fn digits_value(d: Seq<char>, radix: u32) -> Option<nat>
    decreases d.len(),
{
    if d.len() == 0 {
        Some(0)
    } else {
        match (digits_value(d.drop_last(), radix), digit_value(d.last(), radix)) {
            (Some(v), Some(x)) => Some(v * (radix as nat) + x),
            _ => None,
        }
    }
}

/// A `u32` literal in base `radix` as Rust's integer parsing reads it: an
/// optional leading `+`, then at least one digit, with a value that fits.
pub open spec fn radix_u32(s: Seq<char>, radix: u32) -> Option<u32> {
    let digits = if s.len() > 0 && s[0] == '+' {
        s.drop_first()
    } else {
        s
    };
    if digits.len() == 0 {
        None
    } else {
        match digits_value(digits, radix) {
            Some(v) => if v <= u32::MAX {
                Some(v as u32)
            } else {
                None
            },
            None => None,
        }
    }
}

/// A base-16 `u32` literal, as `u32::from_str_radix(_, 16)` reads it.
pub open spec fn hex_u32(s: Seq<char>) -> Option<u32> {
    radix_u32(s, 16)
}

proof fn lemma_digits_prefix(d: Seq<char>, radix: u32, k: int)
    requires
        0 <= k <= d.len(),
        radix == 10 || radix == 16,
    ensures
        digits_value(d, radix) is Some ==> digits_value(d.take(k), radix) is Some && digits_value(
            d.take(k),
            radix,
        )->0 <= digits_value(d, radix)->0,
    decreases d.len(),
{
    if k < d.len() {
        lemma_digits_prefix(d.drop_last(), radix, k);
        assert(d.drop_last().take(k) =~= d.take(k));
    } else {
        assert(d.take(k) =~= d);
    }
}

fn digit(c: char, radix: u32) -> (r: Option<u64>)
    ensures
        match digit_value(c, radix) {
            Some(v) => r == Some(v as u64),
            None => r is None,
        },
        r is Some ==> r->0 < 16,
{
    let code = c as u32;
    if 0x30 <= code && code <= 0x39 {
        Some((code - 0x30) as u64)
    } else if radix == 16 && 0x61 <= code && code <= 0x66 {
        Some((code - 0x61 + 10) as u64)
    } else if radix == 16 && 0x41 <= code && code <= 0x46 {
        Some((code - 0x41 + 10) as u64)
    } else {
        None
    }
}

/// Reads the characters of `s` from position `from` on as a `u32` in base
/// `radix`, as Rust's integer parsing does.
pub fn parse_u32_from(s: &str, from: usize, radix: u32) -> (r: Option<u32>)
    requires
        from <= s@.len(),
        radix == 10 || radix == 16,
    ensures
        r == radix_u32(s@.subrange(from as int, s@.len() as int), radix),
{
    let n = s.unicode_len();
    let ghost rest = s@.subrange(from as int, n as int);
    let mut start = from;
    if from < n && s.get_char(from) == '+' {
        start = from + 1;
    }
    let ghost digits = s@.subrange(start as int, n as int);
    proof {
        if from < n && s@[from as int] == '+' {
            assert(rest.drop_first() =~= digits);
        } else {
            assert(rest =~= digits);
        }
    }
    if start == n {
        return None;
    }
    let ghost expected = radix_u32(rest, radix);
    assert(expected == match digits_value(digits, radix) {
        Some(v) => if v <= u32::MAX {
            Some(v as u32)
        } else {
            None
        },
        None => None,
    });
    let mut acc: u64 = 0;
    let mut i = start;
    proof {
        assert(s@.subrange(start as int, start as int) =~= Seq::<char>::empty());
    }
    while i < n
        invariant
            n == s@.len(),
            radix == 10 || radix == 16,
            start <= i <= n,
            digits == s@.subrange(start as int, n as int),
            expected == radix_u32(s@.subrange(from as int, s@.len() as int), radix),
            expected == match digits_value(digits, radix) {
                Some(v) => if v <= u32::MAX {
                    Some(v as u32)
                } else {
                    None
                },
                None => None,
            },
            digits_value(s@.subrange(start as int, i as int), radix) == Some(acc as nat),
            acc <= u32::MAX,
        decreases n - i,
    {
        let c = s.get_char(i);
        let ghost prefix = s@.subrange(start as int, i + 1);
        proof {
            assert(prefix.drop_last() =~= s@.subrange(start as int, i as int));
            assert(prefix.last() == c);
            assert(digits.take(i + 1 - start) =~= prefix);
            lemma_digits_prefix(digits, radix, i + 1 - start);
        }
        match digit(c, radix) {
            None => {
                return None;
            },
            Some(d) => {
                assert(acc * radix <= 0xffff_ffff * 16) by (nonlinear_arith)
                    requires
                        acc <= 0xffff_ffff,
                        radix <= 16,
                ;
                let next = acc * radix as u64 + d;
                if next > 0xffff_ffff {
                    return None;
                }
                acc = next;
            },
        }
        i = i + 1;
    }
    proof {
        assert(s@.subrange(start as int, n as int) =~= digits);
    }
    Some(acc as u32)
}

/// Parses a hexadecimal colour such as "#5294e2" or "5294e2": leading `#`
/// characters are skipped and the rest is read as a base-16 `u32`.
pub fn parse_color(s: &str) -> (r: Option<u32>)
    ensures
        r == hex_u32(skip_hashes(s@)),
{
    let n = s.unicode_len();
    let mut h: usize = 0;
    proof {
        assert(s@.subrange(0, n as int) =~= s@);
    }
    while h < n && s.get_char(h) == '#'
        invariant
            n == s@.len(),
            h <= n,
            skip_hashes(s@) == skip_hashes(s@.subrange(h as int, n as int)),
        decreases n - h,
    {
        proof {
            assert(s@.subrange(h as int, n as int).drop_first() =~= s@.subrange(h + 1, n as int));
        }
        h = h + 1;
    }
    parse_u32_from(s, h, 16)
}

// =============================================================================
// Runtime configuration
// =============================================================================

/// Layout parameters and colours as the window manager uses them.
#[derive(Debug, Clone)]
pub struct LayoutConfig {
    /// Gap between windows
    pub gap: u32,
    /// Outer gap (margin from the screen edge)
    pub outer_gap: u32,
    /// Border width
    pub border_width: u32,
    /// Tab bar height (horizontal tabs)
    pub tab_bar_height: u32,
    /// Tab bar width (vertical tabs)
    pub vertical_tab_width: u32,
    pub tab_bar_bg: u32,
    pub tab_focused_bg: u32,
    pub tab_unfocused_bg: u32,
    /// Visible tab in an unfocused frame
    pub tab_visible_unfocused_bg: u32,
    pub tab_tagged_bg: u32,
    pub tab_urgent_bg: u32,
    pub tab_text_color: u32,
    /// Text colour of background tabs
    pub tab_text_unfocused: u32,
    pub tab_separator: u32,
    pub border_focused: u32,
    pub border_unfocused: u32,
    /// Show application icons in tabs
    pub show_tab_icons: bool,
}

impl Default for LayoutConfig {
    fn default() -> (r: Self)
        ensures
            r.gap == 8 && r.outer_gap == 8 && r.border_width == 2,
            r.tab_bar_height == 28 && r.vertical_tab_width == 28,
            r.tab_bar_bg == 0x000000 && r.tab_focused_bg == 0x5294e2,
            r.tab_unfocused_bg == 0x3a3a3a && r.tab_visible_unfocused_bg == 0x4a6a9a,
            r.tab_tagged_bg == 0xe06c75 && r.tab_urgent_bg == 0xd19a66,
            r.tab_text_color == 0xffffff && r.tab_text_unfocused == 0x888888,
            r.tab_separator == 0x4a4a4a,
            r.border_focused == 0x5294e2 && r.border_unfocused == 0x3a3a3a,
            r.show_tab_icons,
    {
        LayoutConfig {
            gap: 8,
            outer_gap: 8,
            border_width: 2,
            tab_bar_height: 28,
            vertical_tab_width: 28,
            tab_bar_bg: 0x000000,
            tab_focused_bg: 0x5294e2,
            tab_unfocused_bg: 0x3a3a3a,
            tab_visible_unfocused_bg: 0x4a6a9a,
            tab_tagged_bg: 0xe06c75,
            tab_urgent_bg: 0xd19a66,
            tab_text_color: 0xffffff,
            tab_text_unfocused: 0x888888,
            tab_separator: 0x4a4a4a,
            border_focused: 0x5294e2,
            border_unfocused: 0x3a3a3a,
            show_tab_icons: true,
        }
    }
}

/// A colour setting: the colour it parses to, or `fallback` where it does not
/// parse.
pub open spec fn color_or(setting: Seq<char>, fallback: u32) -> u32 {
    match hex_u32(skip_hashes(setting)) {
        Some(c) => c,
        None => fallback,
    }
}

fn color_setting(setting: &String, fallback: u32) -> (r: u32)
    ensures
        r == color_or(setting@, fallback),
{
    match parse_color(setting.as_str()) {
        Some(c) => c,
        None => fallback,
    }
}

impl LayoutConfig {
    /// Resolves the file configuration: sizes are taken as they are, each
    /// colour is parsed, and one that does not parse falls back to its
    /// built-in value.
    pub fn from_config(user: &Config) -> (r: LayoutConfig)
        ensures
            r.gap == user.appearance.gap,
            r.outer_gap == user.appearance.outer_gap,
            r.border_width == user.appearance.border_width,
            r.tab_bar_height == user.appearance.tab_bar_height,
            r.vertical_tab_width == user.appearance.vertical_tab_width,
            r.show_tab_icons == user.appearance.show_tab_icons,
            r.tab_bar_bg == color_or(user.colors.tab_bar_bg@, 0x2e2e2e),
            r.tab_focused_bg == color_or(user.colors.tab_focused_bg@, 0x5294e2),
            r.tab_unfocused_bg == color_or(user.colors.tab_unfocused_bg@, 0x3a3a3a),
            r.tab_visible_unfocused_bg == color_or(user.colors.tab_visible_unfocused_bg@, 0x4a6a9a),
            r.tab_tagged_bg == color_or(user.colors.tab_tagged_bg@, 0xe06c75),
            r.tab_urgent_bg == color_or(user.colors.tab_urgent_bg@, 0xd19a66),
            r.tab_text_color == color_or(user.colors.tab_text@, 0xffffff),
            r.tab_text_unfocused == color_or(user.colors.tab_text_unfocused@, 0x888888),
            r.tab_separator == color_or(user.colors.tab_separator@, 0x4a4a4a),
            r.border_focused == color_or(user.colors.border_focused@, 0x5294e2),
            r.border_unfocused == color_or(user.colors.border_unfocused@, 0x3a3a3a),
    {
        LayoutConfig {
            gap: user.appearance.gap,
            outer_gap: user.appearance.outer_gap,
            border_width: user.appearance.border_width,
            tab_bar_height: user.appearance.tab_bar_height,
            vertical_tab_width: user.appearance.vertical_tab_width,
            tab_bar_bg: color_setting(&user.colors.tab_bar_bg, 0x2e2e2e),
            tab_focused_bg: color_setting(&user.colors.tab_focused_bg, 0x5294e2),
            tab_unfocused_bg: color_setting(&user.colors.tab_unfocused_bg, 0x3a3a3a),
            tab_visible_unfocused_bg: color_setting(&user.colors.tab_visible_unfocused_bg, 0x4a6a9a),
            tab_tagged_bg: color_setting(&user.colors.tab_tagged_bg, 0xe06c75),
            tab_urgent_bg: color_setting(&user.colors.tab_urgent_bg, 0xd19a66),
            tab_text_color: color_setting(&user.colors.tab_text, 0xffffff),
            tab_text_unfocused: color_setting(&user.colors.tab_text_unfocused, 0x888888),
            tab_separator: color_setting(&user.colors.tab_separator, 0x4a4a4a),
            border_focused: color_setting(&user.colors.border_focused, 0x5294e2),
            border_unfocused: color_setting(&user.colors.border_unfocused, 0x3a3a3a),
            show_tab_icons: user.appearance.show_tab_icons,
        }
    }
}

// =============================================================================
// File configuration
// =============================================================================

/// The whole configuration file.
pub struct Config {
    pub general: GeneralConfig,
    pub appearance: AppearanceConfig,
    pub colors: ColorConfig,
    pub keybindings: KeybindingConfig,
    pub exec_bindings: ExecConfig,
    pub startup: StartupConfig,
}

impl Default for Config {
    fn default() -> (r: Self)
        ensures
            r.appearance.is_default(),
            r.colors.is_default(),
            r.keybindings.is_default(),
            r.exec_bindings.is_default(),
            r.startup.workspace@.len() == 0,
    {
        Config {
            general: GeneralConfig::default(),
            appearance: AppearanceConfig::default(),
            colors: ColorConfig::default(),
            keybindings: KeybindingConfig::default(),
            exec_bindings: ExecConfig::default(),
            startup: StartupConfig::default(),
        }
    }
}

/// Key combinations bound to commands to run, such as ("Mod4+x", "alacritty"),
/// each combination at most once.
pub struct ExecConfig {
    pub bindings: Vec<(String, String)>,
}

impl ExecConfig {
    /// No key combination is bound twice.
    pub open spec fn wf(&self) -> bool {
        forall|i: int, j: int|
            0 <= i < j < self.bindings@.len() ==> self.bindings@[i].0@ != self.bindings@[j].0@
    }

    /// The values the configuration has when the file leaves them out.
    pub open spec fn is_default(&self) -> bool {
        &&& self.wf()
        &&& self.bindings@.len() == 2
        &&& self.bindings@[0].0@ == "Mod4+x"@ && self.bindings@[0].1@ == "alacritty"@
        &&& self.bindings@[1].0@ == "Mod4+r"@ && self.bindings@[1].1@ == "gmrun"@
    }
}

impl Default for ExecConfig {
    /// Mod4+x runs alacritty and Mod4+r runs gmrun.
    fn default() -> (r: Self)
        ensures
            r.is_default(),
    {
        let mut bindings: Vec<(String, String)> = Vec::new();
        bindings.push(("Mod4+x".to_string(), "alacritty".to_string()));
        bindings.push(("Mod4+r".to_string(), "gmrun".to_string()));
        proof {
            reveal_strlit("Mod4+x");
            reveal_strlit("Mod4+r");
            assert("Mod4+x"@[5] != "Mod4+r"@[5]);
        }
        let r = ExecConfig { bindings };
        r
    }
}

/// Per-workspace startup layouts, keyed by workspace number ("1" to "9").
pub struct StartupConfig {
    pub workspace: Vec<(String, WorkspaceStartup)>,
}

impl Default for StartupConfig {
    fn default() -> (r: Self)
        ensures
            r.workspace@.len() == 0,
    {
        StartupConfig { workspace: Vec::new() }
    }
}

/// The startup layout of one workspace.
pub struct WorkspaceStartup {
    pub layout: LayoutNodeConfig,
}

/// A node of a startup layout: a frame or a split.
pub enum LayoutNodeConfig {
    Frame(FrameConfig),
    Split(SplitConfig),
}

/// A frame of a startup layout.
pub struct FrameConfig {
    /// Name used by window placement rules
    pub name: Option<String>,
    /// Whether the frame shows its tabs vertically
    pub vertical_tabs: bool,
    /// Applications to start in this frame
    pub apps: Vec<String>,
}

impl Default for FrameConfig {
    fn default() -> (r: Self)
        ensures
            r.name is None,
            !r.vertical_tabs,
            r.apps@.len() == 0,
    {
        FrameConfig { name: None, vertical_tabs: false, apps: Vec::new() }
    }
}

/// A split of a startup layout. Its ratio, the share of the first child, is
/// in millionths (`crate::layout::RATIO_ONE` is the whole).
pub struct SplitConfig {
    pub direction: SplitDirectionConfig,
    pub ratio: u32,
    pub first: Box<LayoutNodeConfig>,
    pub second: Box<LayoutNodeConfig>,
}

/// Split direction as the configuration file names it.
#[derive(Debug, Clone, Copy, PartialEq, Eq, Structural)]
pub enum SplitDirectionConfig {
    Horizontal,
    Vertical,
}

/// The ratio a split gets when the file gives none: one half.
pub fn default_ratio() -> (r: u32)
    ensures
        r == crate::layout::RATIO_HALF,
{
    crate::layout::RATIO_HALF
}

/// General settings (none yet).
#[derive(Debug, Clone, Copy, PartialEq, Eq, Structural)]
pub struct GeneralConfig {}

impl Default for GeneralConfig {
    fn default() -> (r: Self) {
        GeneralConfig {}
    }
}

/// Gaps, borders and tab bar settings.
pub struct AppearanceConfig {
    pub gap: u32,
    pub outer_gap: u32,
    pub border_width: u32,
    pub tab_bar_height: u32,
    pub vertical_tab_width: u32,
    pub tab_font: String,
    pub tab_font_size: u32,
    pub show_tab_icons: bool,
}

impl AppearanceConfig {
    /// The values the configuration has when the file leaves them out.
    pub open spec fn is_default(&self) -> bool {
        &&& self.gap == 8 && self.outer_gap == 8 && self.border_width == 2
        &&& self.tab_bar_height == 28 && self.vertical_tab_width == 28
        &&& self.tab_font@ == "monospace"@
        &&& self.tab_font_size == 11
        &&& self.show_tab_icons
    }
}

impl Default for AppearanceConfig {
    fn default() -> (r: Self)
        ensures
            r.is_default(),
    {
        let r = AppearanceConfig {
            gap: 8,
            outer_gap: 8,
            border_width: 2,
            tab_bar_height: 28,
            vertical_tab_width: 28,
            tab_font: "monospace".to_string(),
            tab_font_size: 11,
            show_tab_icons: true,
        };
        r
    }
}

/// Colour settings, as hex strings such as "#5294e2".
pub struct ColorConfig {
    pub tab_bar_bg: String,
    pub tab_focused_bg: String,
    pub tab_unfocused_bg: String,
    pub tab_visible_unfocused_bg: String,
    pub tab_tagged_bg: String,
    pub tab_urgent_bg: String,
    pub tab_text: String,
    pub tab_text_unfocused: String,
    pub tab_separator: String,
    pub border_focused: String,
    pub border_unfocused: String,
}

impl ColorConfig {
    /// The values the configuration has when the file leaves them out.
    pub open spec fn is_default(&self) -> bool {
        &&& self.tab_bar_bg@ == "#000000"@
        &&& self.tab_focused_bg@ == "#5294e2"@
        &&& self.tab_unfocused_bg@ == "#3a3a3a"@
        &&& self.tab_visible_unfocused_bg@ == "#4a6a9a"@
        &&& self.tab_tagged_bg@ == "#e06c75"@
        &&& self.tab_urgent_bg@ == "#d19a66"@
        &&& self.tab_text@ == "#ffffff"@
        &&& self.tab_text_unfocused@ == "#888888"@
        &&& self.tab_separator@ == "#4a4a4a"@
        &&& self.border_focused@ == "#5294e2"@
        &&& self.border_unfocused@ == "#3a3a3a"@
    }
}

impl Default for ColorConfig {
    fn default() -> (r: Self)
        ensures
            r.is_default(),
    {
        let r = ColorConfig {
            tab_bar_bg: "#000000".to_string(),
            tab_focused_bg: "#5294e2".to_string(),
            tab_unfocused_bg: "#3a3a3a".to_string(),
            tab_visible_unfocused_bg: "#4a6a9a".to_string(),
            tab_tagged_bg: "#e06c75".to_string(),
            tab_urgent_bg: "#d19a66".to_string(),
            tab_text: "#ffffff".to_string(),
            tab_text_unfocused: "#888888".to_string(),
            tab_separator: "#4a4a4a".to_string(),
            border_focused: "#5294e2".to_string(),
            border_unfocused: "#3a3a3a".to_string(),
        };
        r
    }
}

/// Key combinations for the window manager's actions, such as "Mod4+Return".
pub struct KeybindingConfig {
    pub cycle_tab_forward: Option<String>,
    pub cycle_tab_backward: Option<String>,
    pub focus_next: Option<String>,
    pub focus_prev: Option<String>,
    pub focus_frame_left: Option<String>,
    pub focus_frame_right: Option<String>,
    pub focus_frame_up: Option<String>,
    pub focus_frame_down: Option<String>,
    pub move_window_left: Option<String>,
    pub move_window_right: Option<String>,
    pub resize_shrink: Option<String>,
    pub resize_grow: Option<String>,
    pub split_horizontal: Option<String>,
    pub split_vertical: Option<String>,
    pub close_window: Option<String>,
    pub quit: Option<String>,
    pub focus_tab_1: Option<String>,
    pub focus_tab_2: Option<String>,
    pub focus_tab_3: Option<String>,
    pub focus_tab_4: Option<String>,
    pub focus_tab_5: Option<String>,
    pub focus_tab_6: Option<String>,
    pub focus_tab_7: Option<String>,
    pub focus_tab_8: Option<String>,
    pub focus_tab_9: Option<String>,
    pub workspace_next: Option<String>,
    pub workspace_prev: Option<String>,
    pub tag_window: Option<String>,
    pub move_tagged_windows: Option<String>,
    pub untag_all: Option<String>,
    pub toggle_float: Option<String>,
    pub toggle_fullscreen: Option<String>,
    pub toggle_vertical_tabs: Option<String>,
    pub focus_urgent: Option<String>,
    pub focus_monitor_left: Option<String>,
    pub focus_monitor_right: Option<String>,
}

impl KeybindingConfig {
    /// The values the configuration has when the file leaves them out.
    pub open spec fn is_default(&self) -> bool {
        &&& self.cycle_tab_forward matches Some(k) && k@ == "Mod4+Page_Down"@
        &&& self.cycle_tab_backward matches Some(k) && k@ == "Mod4+Page_Up"@
        &&& self.focus_next matches Some(k) && k@ == "Mod4+j"@
        &&& self.focus_prev matches Some(k) && k@ == "Mod4+k"@
        &&& self.focus_frame_left matches Some(k) && k@ == "Mod4+Left"@
        &&& self.focus_frame_right matches Some(k) && k@ == "Mod4+Right"@
        &&& self.focus_frame_up matches Some(k) && k@ == "Mod4+Up"@
        &&& self.focus_frame_down matches Some(k) && k@ == "Mod4+Down"@
        &&& self.move_window_left matches Some(k) && k@ == "Mod4+Shift+Left"@
        &&& self.move_window_right matches Some(k) && k@ == "Mod4+Shift+Right"@
        &&& self.resize_shrink matches Some(k) && k@ == "Mod4+Control+Left"@
        &&& self.resize_grow matches Some(k) && k@ == "Mod4+Control+Right"@
        &&& self.split_horizontal matches Some(k) && k@ == "Mod4+s"@
        &&& self.split_vertical matches Some(k) && k@ == "Mod4+v"@
        &&& self.close_window matches Some(k) && k@ == "Mod4+q"@
        &&& self.quit matches Some(k) && k@ == "Mod4+Control+F4"@
        &&& self.focus_tab_1 matches Some(k) && k@ == "Mod4+1"@
        &&& self.focus_tab_2 matches Some(k) && k@ == "Mod4+2"@
        &&& self.focus_tab_3 matches Some(k) && k@ == "Mod4+3"@
        &&& self.focus_tab_4 matches Some(k) && k@ == "Mod4+4"@
        &&& self.focus_tab_5 matches Some(k) && k@ == "Mod4+5"@
        &&& self.focus_tab_6 matches Some(k) && k@ == "Mod4+6"@
        &&& self.focus_tab_7 matches Some(k) && k@ == "Mod4+7"@
        &&& self.focus_tab_8 matches Some(k) && k@ == "Mod4+8"@
        &&& self.focus_tab_9 matches Some(k) && k@ == "Mod4+9"@
        &&& self.workspace_next matches Some(k) && k@ == "Mod4+]"@
        &&& self.workspace_prev matches Some(k) && k@ == "Mod4+["@
        &&& self.tag_window matches Some(k) && k@ == "Mod4+t"@
        &&& self.move_tagged_windows matches Some(k) && k@ == "Mod4+a"@
        &&& self.untag_all matches Some(k) && k@ == "Mod4+Shift+t"@
        &&& self.toggle_float matches Some(k) && k@ == "Mod4+f"@
        &&& self.toggle_fullscreen matches Some(k) && k@ == "Mod4+Return"@
        &&& self.toggle_vertical_tabs matches Some(k) && k@ == "Mod4+slash"@
        &&& self.focus_urgent matches Some(k) && k@ == "Mod4+space"@
        &&& self.focus_monitor_left matches Some(k) && k@ == "Mod4+Control+Left"@
        &&& self.focus_monitor_right matches Some(k) && k@ == "Mod4+Control+Right"@
    }
}

impl Default for KeybindingConfig {
    fn default() -> (r: Self)
        ensures
            r.is_default(),
    {
        let r = KeybindingConfig {
            cycle_tab_forward: Some("Mod4+Page_Down".to_string()),
            cycle_tab_backward: Some("Mod4+Page_Up".to_string()),
            focus_next: Some("Mod4+j".to_string()),
            focus_prev: Some("Mod4+k".to_string()),
            focus_frame_left: Some("Mod4+Left".to_string()),
            focus_frame_right: Some("Mod4+Right".to_string()),
            focus_frame_up: Some("Mod4+Up".to_string()),
            focus_frame_down: Some("Mod4+Down".to_string()),
            move_window_left: Some("Mod4+Shift+Left".to_string()),
            move_window_right: Some("Mod4+Shift+Right".to_string()),
            resize_shrink: Some("Mod4+Control+Left".to_string()),
            resize_grow: Some("Mod4+Control+Right".to_string()),
            split_horizontal: Some("Mod4+s".to_string()),
            split_vertical: Some("Mod4+v".to_string()),
            close_window: Some("Mod4+q".to_string()),
            quit: Some("Mod4+Control+F4".to_string()),
            focus_tab_1: Some("Mod4+1".to_string()),
            focus_tab_2: Some("Mod4+2".to_string()),
            focus_tab_3: Some("Mod4+3".to_string()),
            focus_tab_4: Some("Mod4+4".to_string()),
            focus_tab_5: Some("Mod4+5".to_string()),
            focus_tab_6: Some("Mod4+6".to_string()),
            focus_tab_7: Some("Mod4+7".to_string()),
            focus_tab_8: Some("Mod4+8".to_string()),
            focus_tab_9: Some("Mod4+9".to_string()),
            workspace_next: Some("Mod4+]".to_string()),
            workspace_prev: Some("Mod4+[".to_string()),
            tag_window: Some("Mod4+t".to_string()),
            move_tagged_windows: Some("Mod4+a".to_string()),
            untag_all: Some("Mod4+Shift+t".to_string()),
            toggle_float: Some("Mod4+f".to_string()),
            toggle_fullscreen: Some("Mod4+Return".to_string()),
            toggle_vertical_tabs: Some("Mod4+slash".to_string()),
            focus_urgent: Some("Mod4+space".to_string()),
            focus_monitor_left: Some("Mod4+Control+Left".to_string()),
            focus_monitor_right: Some("Mod4+Control+Right".to_string()),
        };
        r
    }
}

/// An action of the window manager that a key can be bound to.
#[derive(Debug, Clone, PartialEq, Eq, Hash)]
pub enum WmAction {
    Spawn(String),
    CycleTabForward,
    CycleTabBackward,
    FocusNext,
    FocusPrev,
    FocusFrameLeft,
    FocusFrameRight,
    FocusFrameUp,
    FocusFrameDown,
    MoveWindowLeft,
    MoveWindowRight,
    ResizeShrink,
    ResizeGrow,
    SplitHorizontal,
    SplitVertical,
    CloseWindow,
    Quit,
    FocusTab(usize),
    WorkspaceNext,
    WorkspacePrev,
    TagWindow,
    MoveTaggedToFrame,
    UntagAll,
    ToggleFloat,
    ToggleFullscreen,
    ToggleVerticalTabs,
    FocusUrgent,
    FocusMonitorLeft,
    FocusMonitorRight,
}

impl WmAction {
    /// A copy of this action.
    fn copy_of(&self) -> (r: WmAction)
        ensures
            r == *self,
    {
        match self {
            WmAction::Spawn(command) => WmAction::Spawn(command.clone()),
            WmAction::CycleTabForward => WmAction::CycleTabForward,
            WmAction::CycleTabBackward => WmAction::CycleTabBackward,
            WmAction::FocusNext => WmAction::FocusNext,
            WmAction::FocusPrev => WmAction::FocusPrev,
            WmAction::FocusFrameLeft => WmAction::FocusFrameLeft,
            WmAction::FocusFrameRight => WmAction::FocusFrameRight,
            WmAction::FocusFrameUp => WmAction::FocusFrameUp,
            WmAction::FocusFrameDown => WmAction::FocusFrameDown,
            WmAction::MoveWindowLeft => WmAction::MoveWindowLeft,
            WmAction::MoveWindowRight => WmAction::MoveWindowRight,
            WmAction::ResizeShrink => WmAction::ResizeShrink,
            WmAction::ResizeGrow => WmAction::ResizeGrow,
            WmAction::SplitHorizontal => WmAction::SplitHorizontal,
            WmAction::SplitVertical => WmAction::SplitVertical,
            WmAction::CloseWindow => WmAction::CloseWindow,
            WmAction::Quit => WmAction::Quit,
            WmAction::FocusTab(n) => WmAction::FocusTab(*n),
            WmAction::WorkspaceNext => WmAction::WorkspaceNext,
            WmAction::WorkspacePrev => WmAction::WorkspacePrev,
            WmAction::TagWindow => WmAction::TagWindow,
            WmAction::MoveTaggedToFrame => WmAction::MoveTaggedToFrame,
            WmAction::UntagAll => WmAction::UntagAll,
            WmAction::ToggleFloat => WmAction::ToggleFloat,
            WmAction::ToggleFullscreen => WmAction::ToggleFullscreen,
            WmAction::ToggleVerticalTabs => WmAction::ToggleVerticalTabs,
            WmAction::FocusUrgent => WmAction::FocusUrgent,
            WmAction::FocusMonitorLeft => WmAction::FocusMonitorLeft,
            WmAction::FocusMonitorRight => WmAction::FocusMonitorRight,
        }
    }
}

/// The actions with a key setting of their own, each with its setting, in
/// the order the settings are read.
pub open spec fn action_settings(kb: KeybindingConfig) -> Seq<(WmAction, Option<String>)> {
    seq![
        (WmAction::CycleTabForward, kb.cycle_tab_forward),
        (WmAction::CycleTabBackward, kb.cycle_tab_backward),
        (WmAction::FocusNext, kb.focus_next),
        (WmAction::FocusPrev, kb.focus_prev),
        (WmAction::FocusFrameLeft, kb.focus_frame_left),
        (WmAction::FocusFrameRight, kb.focus_frame_right),
        (WmAction::FocusFrameUp, kb.focus_frame_up),
        (WmAction::FocusFrameDown, kb.focus_frame_down),
        (WmAction::MoveWindowLeft, kb.move_window_left),
        (WmAction::MoveWindowRight, kb.move_window_right),
        (WmAction::ResizeShrink, kb.resize_shrink),
        (WmAction::ResizeGrow, kb.resize_grow),
        (WmAction::SplitHorizontal, kb.split_horizontal),
        (WmAction::SplitVertical, kb.split_vertical),
        (WmAction::CloseWindow, kb.close_window),
        (WmAction::Quit, kb.quit),
        (WmAction::FocusTab(1), kb.focus_tab_1),
        (WmAction::FocusTab(2), kb.focus_tab_2),
        (WmAction::FocusTab(3), kb.focus_tab_3),
        (WmAction::FocusTab(4), kb.focus_tab_4),
        (WmAction::FocusTab(5), kb.focus_tab_5),
        (WmAction::FocusTab(6), kb.focus_tab_6),
        (WmAction::FocusTab(7), kb.focus_tab_7),
        (WmAction::FocusTab(8), kb.focus_tab_8),
        (WmAction::FocusTab(9), kb.focus_tab_9),
        (WmAction::WorkspaceNext, kb.workspace_next),
        (WmAction::WorkspacePrev, kb.workspace_prev),
        (WmAction::TagWindow, kb.tag_window),
        (WmAction::MoveTaggedToFrame, kb.move_tagged_windows),
        (WmAction::UntagAll, kb.untag_all),
        (WmAction::ToggleFloat, kb.toggle_float),
        (WmAction::ToggleFullscreen, kb.toggle_fullscreen),
        (WmAction::ToggleVerticalTabs, kb.toggle_vertical_tabs),
        (WmAction::FocusUrgent, kb.focus_urgent),
        (WmAction::FocusMonitorLeft, kb.focus_monitor_left),
        (WmAction::FocusMonitorRight, kb.focus_monitor_right),
    ]
}

/// What the key settings ask for, in order: each action setting that is
/// present, then each exec binding as a `Spawn` of its command.
pub open spec fn binding_requests(c: Config) -> Seq<(WmAction, Seq<char>)> {
    settings_requests(action_settings(c.keybindings)) + c.exec_bindings.bindings@.map_values(
        |b: (String, String)| (WmAction::Spawn(b.1), b.0@),
    )
}

/// The present settings among `settings`, in order.
pub open spec fn settings_requests(settings: Seq<(WmAction, Option<String>)>) -> Seq<(WmAction, Seq<char>)>
    decreases settings.len(),
{
    if settings.len() == 0 {
        seq![]
    } else {
        let init = settings_requests(settings.drop_last());
        match settings.last().1 {
            Some(k) => init.push((settings.last().0, k@)),
            None => init,
        }
    }
}

/// The requests whose key combination parses, each with its binding, in order.
pub open spec fn parsed_requests(reqs: Seq<(WmAction, Seq<char>)>) -> Seq<(WmAction, ParsedBinding)>
    decreases reqs.len(),
{
    if reqs.len() == 0 {
        seq![]
    } else {
        let init = parsed_requests(reqs.drop_last());
        match binding_spec(reqs.last().1) {
            Some(p) => init.push((reqs.last().0, p)),
            None => init,
        }
    }
}

impl Config {
    /// The key bindings the configuration asks for, read in order: first
    /// the actions' own settings, then the exec bindings. A combination that
    /// does not parse is left out. Each action has one binding: where an
    /// action occurs twice (two exec bindings of one command), the later
    /// entry is the one that stands.
    pub fn parse_keybindings(&self) -> (r: Vec<(WmAction, ParsedBinding)>)
        ensures
            r@ == later_wins(parsed_requests(binding_requests(*self))),
            one_per_action(r@),
    {
        let kb = &self.keybindings;
        let settings: Vec<(WmAction, &Option<String>)> = vec![
            (WmAction::CycleTabForward, &kb.cycle_tab_forward),
            (WmAction::CycleTabBackward, &kb.cycle_tab_backward),
            (WmAction::FocusNext, &kb.focus_next),
            (WmAction::FocusPrev, &kb.focus_prev),
            (WmAction::FocusFrameLeft, &kb.focus_frame_left),
            (WmAction::FocusFrameRight, &kb.focus_frame_right),
            (WmAction::FocusFrameUp, &kb.focus_frame_up),
            (WmAction::FocusFrameDown, &kb.focus_frame_down),
            (WmAction::MoveWindowLeft, &kb.move_window_left),
            (WmAction::MoveWindowRight, &kb.move_window_right),
            (WmAction::ResizeShrink, &kb.resize_shrink),
            (WmAction::ResizeGrow, &kb.resize_grow),
            (WmAction::SplitHorizontal, &kb.split_horizontal),
            (WmAction::SplitVertical, &kb.split_vertical),
            (WmAction::CloseWindow, &kb.close_window),
            (WmAction::Quit, &kb.quit),
            (WmAction::FocusTab(1), &kb.focus_tab_1),
            (WmAction::FocusTab(2), &kb.focus_tab_2),
            (WmAction::FocusTab(3), &kb.focus_tab_3),
            (WmAction::FocusTab(4), &kb.focus_tab_4),
            (WmAction::FocusTab(5), &kb.focus_tab_5),
            (WmAction::FocusTab(6), &kb.focus_tab_6),
            (WmAction::FocusTab(7), &kb.focus_tab_7),
            (WmAction::FocusTab(8), &kb.focus_tab_8),
            (WmAction::FocusTab(9), &kb.focus_tab_9),
            (WmAction::WorkspaceNext, &kb.workspace_next),
            (WmAction::WorkspacePrev, &kb.workspace_prev),
            (WmAction::TagWindow, &kb.tag_window),
            (WmAction::MoveTaggedToFrame, &kb.move_tagged_windows),
            (WmAction::UntagAll, &kb.untag_all),
            (WmAction::ToggleFloat, &kb.toggle_float),
            (WmAction::ToggleFullscreen, &kb.toggle_fullscreen),
            (WmAction::ToggleVerticalTabs, &kb.toggle_vertical_tabs),
            (WmAction::FocusUrgent, &kb.focus_urgent),
            (WmAction::FocusMonitorLeft, &kb.focus_monitor_left),
            (WmAction::FocusMonitorRight, &kb.focus_monitor_right),
        ];
        let ghost expected_settings = action_settings(self.keybindings);
        assert(settings@.map_values(|e: (WmAction, &Option<String>)| (e.0, *e.1)) =~= expected_settings);
        let mut bindings: Vec<(WmAction, ParsedBinding)> = Vec::new();
        let mut i: usize = 0;
        while i < settings.len()
            invariant
                i <= settings@.len(),
                settings@.map_values(|e: (WmAction, &Option<String>)| (e.0, *e.1)) == expected_settings,
                bindings@ == parsed_requests(settings_requests(expected_settings.take(i as int))),
            decreases settings@.len() - i,
        {
            let (action, key) = &settings[i];
            proof {
                assert(expected_settings.take(i + 1).drop_last() =~= expected_settings.take(i as int));
                assert(expected_settings[i as int] == (*action, **key));
                assert(expected_settings.take(i + 1).last() == expected_settings[i as int]);
                let before = settings_requests(expected_settings.take(i as int));
                if (**key) is Some {
                    let pushed = before.push((*action, (**key)->0@));
                    assert(pushed.drop_last() =~= before);
                }
            }
            match key {
                Some(k) => {
                    let parsed = parse_key_binding(k.as_str());
                    match parsed {
                        Some(p) => {
                            bindings.push((action.copy_of(), p));
                        },
                        None => {},
                    }
                },
                None => {},
            }
            i = i + 1;
        }
        proof {
            assert(expected_settings.take(settings@.len() as int) =~= expected_settings);
        }
        let ghost fixed = settings_requests(expected_settings);
        let mut j: usize = 0;
        let execs = &self.exec_bindings.bindings;
        let ghost exec_reqs = execs@.map_values(|b: (String, String)| (WmAction::Spawn(b.1), b.0@));
        while j < execs.len()
            invariant
                j <= execs@.len(),
                exec_reqs == execs@.map_values(|b: (String, String)| (WmAction::Spawn(b.1), b.0@)),
                bindings@ == parsed_requests(fixed + exec_reqs.take(j as int)),
            decreases execs@.len() - j,
        {
            let (combo, command) = &execs[j];
            proof {
                assert((fixed + exec_reqs.take(j + 1)).drop_last() =~= fixed + exec_reqs.take(j as int));
                assert((fixed + exec_reqs.take(j + 1)).last() == exec_reqs[j as int]);
            }
            match parse_key_binding(combo.as_str()) {
                Some(p) => {
                    bindings.push((WmAction::Spawn(command.clone()), p));
                },
                None => {},
            }
            j = j + 1;
        }
        proof {
            assert(exec_reqs.take(execs@.len() as int) =~= exec_reqs);
        }
        proof {
            lemma_later_wins_one_per_action(bindings@);
        }
        keep_latest(&bindings)
    }
}

/// The variant of an action, and the tab of a `FocusTab`.
pub open spec fn action_code(a: WmAction) -> (u8, usize) {
    match a {
        WmAction::Spawn(_) => (0, 0),
        WmAction::CycleTabForward => (1, 0),
        WmAction::CycleTabBackward => (2, 0),
        WmAction::FocusNext => (3, 0),
        WmAction::FocusPrev => (4, 0),
        WmAction::FocusFrameLeft => (5, 0),
        WmAction::FocusFrameRight => (6, 0),
        WmAction::FocusFrameUp => (7, 0),
        WmAction::FocusFrameDown => (8, 0),
        WmAction::MoveWindowLeft => (9, 0),
        WmAction::MoveWindowRight => (10, 0),
        WmAction::ResizeShrink => (11, 0),
        WmAction::ResizeGrow => (12, 0),
        WmAction::SplitHorizontal => (13, 0),
        WmAction::SplitVertical => (14, 0),
        WmAction::CloseWindow => (15, 0),
        WmAction::Quit => (16, 0),
        WmAction::FocusTab(n) => (17, n),
        WmAction::WorkspaceNext => (18, 0),
        WmAction::WorkspacePrev => (19, 0),
        WmAction::TagWindow => (20, 0),
        WmAction::MoveTaggedToFrame => (21, 0),
        WmAction::UntagAll => (22, 0),
        WmAction::ToggleFloat => (23, 0),
        WmAction::ToggleFullscreen => (24, 0),
        WmAction::ToggleVerticalTabs => (25, 0),
        WmAction::FocusUrgent => (26, 0),
        WmAction::FocusMonitorLeft => (27, 0),
        WmAction::FocusMonitorRight => (28, 0),
    }
}

/// Two actions are the same: the same variant, with the same tab number or
/// the same command text.
pub open spec fn same_action(a: WmAction, b: WmAction) -> bool {
    &&& action_code(a) == action_code(b)
    &&& (a matches WmAction::Spawn(x) ==> b matches WmAction::Spawn(y) && x@ == y@)
}

fn action_code_of(a: &WmAction) -> (r: (u8, usize))
    ensures
        r == action_code(*a),
{
    match a {
        WmAction::Spawn(_) => (0, 0),
        WmAction::CycleTabForward => (1, 0),
        WmAction::CycleTabBackward => (2, 0),
        WmAction::FocusNext => (3, 0),
        WmAction::FocusPrev => (4, 0),
        WmAction::FocusFrameLeft => (5, 0),
        WmAction::FocusFrameRight => (6, 0),
        WmAction::FocusFrameUp => (7, 0),
        WmAction::FocusFrameDown => (8, 0),
        WmAction::MoveWindowLeft => (9, 0),
        WmAction::MoveWindowRight => (10, 0),
        WmAction::ResizeShrink => (11, 0),
        WmAction::ResizeGrow => (12, 0),
        WmAction::SplitHorizontal => (13, 0),
        WmAction::SplitVertical => (14, 0),
        WmAction::CloseWindow => (15, 0),
        WmAction::Quit => (16, 0),
        WmAction::FocusTab(n) => (17, *n),
        WmAction::WorkspaceNext => (18, 0),
        WmAction::WorkspacePrev => (19, 0),
        WmAction::TagWindow => (20, 0),
        WmAction::MoveTaggedToFrame => (21, 0),
        WmAction::UntagAll => (22, 0),
        WmAction::ToggleFloat => (23, 0),
        WmAction::ToggleFullscreen => (24, 0),
        WmAction::ToggleVerticalTabs => (25, 0),
        WmAction::FocusUrgent => (26, 0),
        WmAction::FocusMonitorLeft => (27, 0),
        WmAction::FocusMonitorRight => (28, 0),
    }
}

/// Whether `a` and `b` are the same action.
fn actions_match(a: &WmAction, b: &WmAction) -> (r: bool)
    ensures
        r == same_action(*a, *b),
{
    let ca = action_code_of(a);
    let cb = action_code_of(b);
    if ca.0 != cb.0 || ca.1 != cb.1 {
        return false;
    }
    match (a, b) {
        (WmAction::Spawn(x), WmAction::Spawn(y)) => str_eq(x.as_str(), y.as_str()),
        _ => true,
    }
}

/// The entries of `s`, in order, but those for the action `a`.
pub open spec fn without_action(s: Seq<(WmAction, ParsedBinding)>, a: WmAction) -> Seq<(WmAction, ParsedBinding)>
    decreases s.len(),
{
    if s.len() == 0 {
        seq![]
    } else {
        let init = without_action(s.drop_last(), a);
        if same_action(s.last().0, a) {
            init
        } else {
            init.push(s.last())
        }
    }
}

/// One entry per action, the last that `s` gives it: each entry in turn
/// replaces an earlier one of the same action and goes to the end, as a
/// map insert of the action would keep it.
pub open spec fn later_wins(s: Seq<(WmAction, ParsedBinding)>) -> Seq<(WmAction, ParsedBinding)>
    decreases s.len(),
{
    if s.len() == 0 {
        seq![]
    } else {
        without_action(later_wins(s.drop_last()), s.last().0).push(s.last())
    }
}

/// No two entries of `s` are for the same action.
pub open spec fn one_per_action(s: Seq<(WmAction, ParsedBinding)>) -> bool {
    forall|i: int, j: int| 0 <= i < j < s.len() ==> !same_action(#[trigger] s[i].0, #[trigger] s[j].0)
}

proof fn lemma_without_action(s: Seq<(WmAction, ParsedBinding)>, a: WmAction)
    ensures
        forall|i: int| 0 <= i < without_action(s, a).len() ==> !same_action(#[trigger] without_action(s, a)[i].0, a),
        forall|i: int| 0 <= i < without_action(s, a).len() ==> s.contains(#[trigger] without_action(s, a)[i]),
        one_per_action(s) ==> one_per_action(without_action(s, a)),
    decreases s.len(),
{
    if s.len() > 0 {
        let init = s.drop_last();
        lemma_without_action(init, a);
        let w = without_action(init, a);
        assert forall|i: int| 0 <= i < w.len() implies s.contains(#[trigger] w[i]) by {
            let k = choose|k: int| 0 <= k < init.len() && init[k] == w[i];
            assert(s[k] == w[i]);
        }
        if !same_action(s.last().0, a) {
            let w2 = w.push(s.last());
            assert(s.contains(s[s.len() - 1]));
            if one_per_action(s) {
                assert(one_per_action(init));
                assert forall|i: int, j: int| 0 <= i < j < w2.len() implies !same_action(#[trigger] w2[i].0, #[trigger] w2[j].0) by {
                    if j == w2.len() - 1 {
                        let k = choose|k: int| 0 <= k < init.len() && init[k] == w2[i];
                        assert(s[k] == w2[i]);
                        assert(!same_action(s[k].0, s[s.len() - 1].0));
                    } else {
                        assert(w2[i] == w[i] && w2[j] == w[j]);
                    }
                }
            }
        } else {
            if one_per_action(s) {
                assert(one_per_action(init));
            }
        }
    }
}

proof fn lemma_later_wins_one_per_action(s: Seq<(WmAction, ParsedBinding)>)
    ensures
        one_per_action(later_wins(s)),
    decreases s.len(),
{
    if s.len() > 0 {
        lemma_later_wins_one_per_action(s.drop_last());
        let x = s.last();
        let w = without_action(later_wins(s.drop_last()), x.0);
        lemma_without_action(later_wins(s.drop_last()), x.0);
        let r = w.push(x);
        assert forall|i: int, j: int| 0 <= i < j < r.len() implies !same_action(#[trigger] r[i].0, #[trigger] r[j].0) by {
            if j == r.len() - 1 {
                assert(r[i] == w[i]);
                assert(!same_action(w[i].0, x.0));
            } else {
                assert(r[i] == w[i] && r[j] == w[j]);
            }
        }
    }
}

fn drop_action(v: &Vec<(WmAction, ParsedBinding)>, a: &WmAction) -> (r: Vec<(WmAction, ParsedBinding)>)
    ensures
        r@ == without_action(v@, *a),
{
    let mut out: Vec<(WmAction, ParsedBinding)> = Vec::new();
    let mut j: usize = 0;
    while j < v.len()
        invariant
            j <= v@.len(),
            out@ == without_action(v@.take(j as int), *a),
        decreases v@.len() - j,
    {
        proof {
            assert(v@.take(j + 1).drop_last() =~= v@.take(j as int));
            assert(v@.take(j + 1).last() == v@[j as int]);
        }
        if !actions_match(&v[j].0, a) {
            out.push((v[j].0.copy_of(), v[j].1));
        }
        j = j + 1;
    }
    proof {
        assert(v@.take(v@.len() as int) =~= v@);
    }
    out
}

fn keep_latest(v: &Vec<(WmAction, ParsedBinding)>) -> (r: Vec<(WmAction, ParsedBinding)>)
    ensures
        r@ == later_wins(v@),
{
    let mut out: Vec<(WmAction, ParsedBinding)> = Vec::new();
    let mut i: usize = 0;
    while i < v.len()
        invariant
            i <= v@.len(),
            out@ == later_wins(v@.take(i as int)),
        decreases v@.len() - i,
    {
        proof {
            assert(v@.take(i + 1).drop_last() =~= v@.take(i as int));
            assert(v@.take(i + 1).last() == v@[i as int]);
        }
        let mut next = drop_action(&out, &v[i].0);
        next.push((v[i].0.copy_of(), v[i].1));
        out = next;
        i = i + 1;
    }
    proof {
        assert(v@.take(v@.len() as int) =~= v@);
    }
    out
}

// =============================================================================
// Key presses
// =============================================================================

/// The Num Lock (Mod2) and Caps Lock modifier bits, which key presses ignore.
pub const IGNORED_MODIFIERS: u16 = 16 | 2;

/// The index of the first binding for `keysym` whose modifiers are those of
/// `state` once Num Lock and Caps Lock are ignored.
pub open spec fn binding_for_key(bindings: Seq<(WmAction, ParsedBinding)>, keysym: u32, state: u16) -> Option<int>
    decreases bindings.len(),
{
    if bindings.len() == 0 {
        None
    } else {
        match binding_for_key(bindings.drop_last(), keysym, state) {
            Some(i) => Some(i),
            None => {
                let b = bindings.last().1;
                if b.keysym == keysym && b.modifiers == state & !IGNORED_MODIFIERS {
                    Some(bindings.len() - 1)
                } else {
                    None
                }
            },
        }
    }
}

proof fn lemma_binding_prefix(bindings: Seq<(WmAction, ParsedBinding)>, k: int, keysym: u32, state: u16)
    requires
        0 <= k <= bindings.len(),
        binding_for_key(bindings.take(k), keysym, state) is Some,
    ensures
        binding_for_key(bindings, keysym, state) == binding_for_key(bindings.take(k), keysym, state),
    decreases bindings.len() - k,
{
    if k < bindings.len() {
        assert(bindings.take(k + 1).drop_last() =~= bindings.take(k));
        lemma_binding_prefix(bindings, k + 1, keysym, state);
    } else {
        assert(bindings.take(k) =~= bindings);
    }
}

/// The binding that a key press of `keysym` with modifier `state` triggers.
pub fn find_binding(bindings: &Vec<(WmAction, ParsedBinding)>, keysym: u32, state: u16) -> (r: Option<usize>)
    ensures
        r matches Some(i) ==> binding_for_key(bindings@, keysym, state) == Some(i as int),
        r is None ==> binding_for_key(bindings@, keysym, state) is None,
{
    let clean = state & !IGNORED_MODIFIERS;
    let mut i: usize = 0;
    proof {
        assert(bindings@.take(0) =~= Seq::<(WmAction, ParsedBinding)>::empty());
    }
    while i < bindings.len()
        invariant
            i <= bindings@.len(),
            clean == state & !IGNORED_MODIFIERS,
            binding_for_key(bindings@.take(i as int), keysym, state) is None,
        decreases bindings@.len() - i,
    {
        let b = bindings[i].1;
        proof {
            assert(bindings@.take(i + 1).drop_last() =~= bindings@.take(i as int));
            assert(bindings@.take(i + 1).last() == bindings@[i as int]);
        }
        if b.keysym == keysym && b.modifiers == clean {
            proof {
                lemma_binding_prefix(bindings@, i + 1, keysym, state);
            }
            return Some(i);
        }
        i = i + 1;
    }
    proof {
        assert(bindings@.take(bindings@.len() as int) =~= bindings@);
    }
    None
}

/// The key grabs for a binding: its modifiers alone, and with Caps Lock,
/// Num Lock and both, so that the lock keys do not stop it.
pub fn grab_masks(modifiers: u16) -> (r: [u16; 4])
    ensures
        r@ == seq![modifiers, modifiers | 2u16, modifiers | 16u16, modifiers | 2u16 | 16u16],
{
    let r = [modifiers, modifiers | 2, modifiers | 16, modifiers | 2 | 16];
    assert(r@ =~= seq![modifiers, modifiers | 2u16, modifiers | 16u16, modifiers | 2u16 | 16u16]);
    r
}

/// The keycode that produces `keysym`, from the keyboard mapping: the
/// mapping gives `per` keysyms for each keycode from `min_keycode` on, and
/// the first keycode listing the keysym is taken. Keysym 0 stands for no
/// symbol and is never found.
pub open spec fn keycode_spec(keysyms: Seq<u32>, per: usize, min_keycode: u8, keysym: u32) -> Option<u8> {
    if keysym == 0 {
        None
    } else {
        match keysyms.index_of_first(keysym) {
            Some(j) => Some((min_keycode + j / (per as int)) as u8),
            None => None,
        }
    }
}

/// Looks up the keycode of `keysym` in the keyboard mapping.
pub fn keycode_for_keysym(keysyms: &[u32], per: usize, min_keycode: u8, keysym: u32) -> (r: Option<u8>)
    requires
        per > 0,
        min_keycode + (keysyms@.len() as int) / (per as int) <= 255,
    ensures
        r == keycode_spec(keysyms@, per, min_keycode, keysym),
{
    if keysym == 0 {
        return None;
    }
    let mut j: usize = 0;
    while j < keysyms.len()
        invariant
            j <= keysyms@.len(),
            keysym != 0,
            per > 0,
            min_keycode + (keysyms@.len() as int) / (per as int) <= 255,
            forall|k: int| 0 <= k < j ==> keysyms@[k] != keysym,
        decreases keysyms@.len() - j,
    {
        if keysyms[j] == keysym {
            proof {
                keysyms@.index_of_first_ensures(keysym);
                assert((j as int) / (per as int) <= (keysyms@.len() as int) / (per as int)) by (nonlinear_arith)
                    requires
                        j < keysyms@.len(),
                        per > 0,
                ;
            }
            return Some(min_keycode + (j / per) as u8);
        }
        j = j + 1;
    }
    proof {
        keysyms@.index_of_first_ensures(keysym);
        assert(!keysyms@.contains(keysym));
    }
    None
}

/// The first keysym of `keycode` in the keyboard mapping, or 0 where the
/// mapping has none.
pub fn keysym_for_keycode(keysyms: &[u32], per: usize, min_keycode: u8, keycode: u8) -> (r: u32)
    requires
        keycode >= min_keycode,
        (keycode - min_keycode) * per <= usize::MAX,
    ensures
        ({
            let idx = (keycode - min_keycode) * per;
            r == if idx < keysyms@.len() { keysyms@[idx] } else { 0 }
        }),
{
    let idx = (keycode - min_keycode) as usize * per;
    if idx < keysyms.len() {
        keysyms[idx]
    } else {
        0
    }
}

} // verus!
