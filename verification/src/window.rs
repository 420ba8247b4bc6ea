//! [WINDOWS] definitions: a line of comma-separated fields read into a `Window`, and
//! the #WINDOWS file that records them.
use vstd::prelude::*;
use crate::bytebuf::{Buf, u32_le, i32_le};
use crate::hhp::{find_byte, find_byte_exec};
use crate::sitemap::{copy_range, from_radix, parse_radix};
use crate::strutil::{parse_int, parse_int_spec, slashes, slashes_spec, trim, trimmed};
use crate::tables::{enc_text, lemma_grows_offset, lemma_grows_trans, zeros, Strings};
use crate::textenc::{tables_ok, CodepageTable};

verus! {

/// The flags of the fields a window definition sets.
pub const WP_PROPERTIES: u32 = 0x0002;
pub const WP_STYLES: u32 = 0x0004;
pub const WP_EXSTYLES: u32 = 0x0008;
pub const WP_RECT: u32 = 0x0010;
pub const WP_NAV_WIDTH: u32 = 0x0020;
pub const WP_SHOWSTATE: u32 = 0x0040;
pub const WP_TB_FLAGS: u32 = 0x0100;
pub const WP_EXPANSION: u32 = 0x0200;
pub const WP_TABPOS: u32 = 0x0400;
pub const WP_CUR_TAB: u32 = 0x2000;

/// A window definition.
pub struct Window {
    pub typ: Vec<u8>,
    pub caption: Vec<u8>,
    pub toc: Vec<u8>,
    pub index: Vec<u8>,
    pub default_file: Vec<u8>,
    pub home: Vec<u8>,
    pub jump1_file: Vec<u8>,
    pub jump1_text: Vec<u8>,
    pub jump2_file: Vec<u8>,
    pub jump2_text: Vec<u8>,
    pub nav_style: u32,
    pub nav_width: u32,
    pub buttons: u32,
    pub rect: [i32; 4],
    pub styles: u32,
    pub ex_styles: u32,
    pub show_state: u32,
    pub nav_closed: u32,
    pub nav_default: u32,
    pub nav_pos: u32,
    pub notify_id: u32,
    pub valid_flags: u32,
}

/// The line with its first `=` made a comma.
pub open spec fn eq_to_comma(line: Seq<u8>) -> Seq<u8> {
    let eq = find_byte(line, 0x3D, 0);
    if eq < line.len() { line.update(eq, 0x2C) } else { line }
}

/// The field starting at `i` and where the next starts (`s.len() + 1` past the end):
/// a quoted field runs to the next quote (its rest up to a comma is dropped; an
/// unclosed quote gives an empty last field), any other to the next comma, trimmed.
pub open spec fn token_at(s: Seq<u8>, i: int) -> (Seq<u8>, int) {
    if 0 <= i < s.len() && s[i] == 0x22 {
        let c = find_byte(s, 0x22, i + 1);
        if c < s.len() {
            let cm = find_byte(s, 0x2C, c + 1);
            (s.subrange(i + 1, c), if cm < s.len() { cm + 1 } else { s.len() + 1int })
        } else {
            (Seq::empty(), s.len() + 1int)
        }
    } else {
        let cm = find_byte(s, 0x2C, i);
        (trimmed(s.subrange(i, cm)), cm + 1)
    }
}

proof fn lemma_token_at(s: Seq<u8>, i: int)
    requires
        0 <= i <= s.len(),
    ensures
        i < token_at(s, i).1 <= s.len() + 1,
{
    crate::hhp::lemma_find_byte_bounds(s, 0x22, if i + 1 <= s.len() { i + 1 } else { s.len() as int });
    crate::hhp::lemma_find_byte_bounds(s, 0x2C, i);
    if 0 <= i < s.len() && s[i] == 0x22 {
        let c = find_byte(s, 0x22, i + 1);
        if c < s.len() {
            crate::hhp::lemma_find_byte_bounds(s, 0x2C, c + 1);
        }
    }
}

/// The fields from `i` on.
pub open spec fn tokens_from(s: Seq<u8>, i: int) -> Seq<Seq<u8>>
    decreases s.len() + 1 - i,
{
    if i < 0 || i > s.len() {
        Seq::empty()
    } else {
        let (cur, next) = token_at(s, i);
        if next <= i || next > s.len() + 1 {
            seq![cur]
        } else {
            seq![cur] + tokens_from(s, next)
        }
    }
}

/// The fields of a window line.
pub open spec fn window_tokens(line: Seq<u8>) -> Seq<Seq<u8>> {
    tokens_from(eq_to_comma(line), 0)
}

/// Field `idx`, empty when there is none.
pub open spec fn str_at(tok: Seq<Seq<u8>>, idx: int) -> Seq<u8> {
    if 0 <= idx < tok.len() { tok[idx] } else { Seq::empty() }
}

/// Field `idx` is there and not empty.
pub open spec fn present(tok: Seq<Seq<u8>>, idx: int) -> bool {
    0 <= idx < tok.len() && tok[idx].len() > 0
}

/// Field `idx` as a number; 0 when absent or empty.
pub open spec fn num_at(tok: Seq<Seq<u8>>, idx: int) -> u32 {
    if present(tok, idx) { parse_int_spec(tok[idx]) } else { 0 }
}

/// `bit` when field `idx` is given, else 0.
pub open spec fn flag_at(tok: Seq<Seq<u8>>, idx: int, bit: u32) -> u32 {
    if present(tok, idx) { bit } else { 0 }
}

/// A signed 32-bit decimal number: an optional sign, then digits.
pub open spec fn i32_of(t: Seq<u8>) -> Option<i32> {
    if t.len() > 0 && t[0] == 0x2D {
        let d = t.subrange(1, t.len() as int);
        if d.len() > 0 && d[0] == 0x2B {
            None
        } else {
            match from_radix(d, 10) {
                Some(v) => if v <= 0x8000_0000 { Some((-(v as int)) as i32) } else { None },
                None => None,
            }
        }
    } else {
        match from_radix(t, 10) {
            Some(v) => if v <= 0x7FFF_FFFF { Some(v as i32) } else { None },
            None => None,
        }
    }
}

/// `s` without its `[` characters.
pub open spec fn drop_brackets(s: Seq<u8>) -> Seq<u8>
    decreases s.len(),
{
    if s.len() == 0 {
        s
    } else if s.last() == 0x5B {
        drop_brackets(s.drop_last())
    } else {
        drop_brackets(s.drop_last()).push(s.last())
    }
}

/// A rectangle field: its `[` dropped and everything from `]` on, trimmed.
pub open spec fn rect_text(f: Seq<u8>) -> Seq<u8> {
    let v = drop_brackets(f);
    let br = find_byte(v, 0x5D, 0);
    trimmed(if br < v.len() { v.subrange(0, br) } else { v })
}

/// The field closes the rectangle: it holds a `]`.
pub open spec fn rect_last(f: Seq<u8>) -> bool {
    find_byte(drop_brackets(f), 0x5D, 0) < drop_brackets(f).len()
}

/// The rectangle fields from field `idx` and corner `k` on: the corners so far,
/// whether any was given, and the field after the rectangle.
pub open spec fn rect_loop(tok: Seq<Seq<u8>>, idx: int, k: int, rect: Seq<i32>, any: bool) -> (Seq<i32>, bool, int)
    decreases 4 - k,
{
    if k >= 4 || idx >= tok.len() || idx < 0 || k < 0 {
        (rect, any, idx)
    } else {
        let t = rect_text(tok[idx]);
        let v = match i32_of(t) {
            Some(x) => x,
            None => 0,
        };
        let rect2 = rect.update(k, v);
        let any2 = any || t.len() > 0;
        if rect_last(tok[idx]) {
            (rect2, any2, idx + 1)
        } else {
            rect_loop(tok, idx + 1, k + 1, rect2, any2)
        }
    }
}

/// Field 13 opens a rectangle.
pub open spec fn has_rect(tok: Seq<Seq<u8>>) -> bool {
    13 < tok.len() && tok[13].len() > 0 && tok[13][0] == 0x5B
}

/// The corners, whether any was given, and the field after the rectangle.
pub open spec fn rect_part(tok: Seq<Seq<u8>>) -> (Seq<i32>, bool, int) {
    if has_rect(tok) {
        rect_loop(tok, 13, 0, seq![0i32, 0, 0, 0], false)
    } else if 13 < tok.len() {
        (seq![0i32, 0, 0, 0], false, 14)
    } else {
        (seq![0i32, 0, 0, 0], false, 13)
    }
}

/// The window a line defines: fields type, caption, TOC, index, default file, home,
/// jump 1 file and text, jump 2 file and text, navigation style and width, buttons,
/// the rectangle `[l, t, r, b]`, styles, extended styles, show state, navigation
/// closed, default tab, tab position, notify id. Paths get forward slashes; each
/// numeric field given sets its flag.
pub open spec fn window_of(w: Window, line: Seq<u8>) -> bool {
    let tok = window_tokens(line);
    let (rect, any, idx) = rect_part(tok);
    &&& w.typ@ == str_at(tok, 0)
    &&& w.caption@ == str_at(tok, 1)
    &&& w.toc@ == slashes_spec(str_at(tok, 2))
    &&& w.index@ == slashes_spec(str_at(tok, 3))
    &&& w.default_file@ == slashes_spec(str_at(tok, 4))
    &&& w.home@ == slashes_spec(str_at(tok, 5))
    &&& w.jump1_file@ == slashes_spec(str_at(tok, 6))
    &&& w.jump1_text@ == str_at(tok, 7)
    &&& w.jump2_file@ == slashes_spec(str_at(tok, 8))
    &&& w.jump2_text@ == str_at(tok, 9)
    &&& w.nav_style == num_at(tok, 10)
    &&& w.nav_width == num_at(tok, 11)
    &&& w.buttons == num_at(tok, 12)
    &&& w.rect@ == rect
    &&& w.styles == num_at(tok, idx)
    &&& w.ex_styles == num_at(tok, idx + 1)
    &&& w.show_state == num_at(tok, idx + 2)
    &&& w.nav_closed == num_at(tok, idx + 3)
    &&& w.nav_default == num_at(tok, idx + 4)
    &&& w.nav_pos == num_at(tok, idx + 5)
    &&& w.notify_id == num_at(tok, idx + 6)
    &&& w.valid_flags == ((((((((((0u32 | flag_at(tok, 10, WP_PROPERTIES)) | flag_at(
        tok,
        11,
        WP_NAV_WIDTH,
    )) | flag_at(tok, 12, WP_TB_FLAGS)) | (if any { WP_RECT } else { 0u32 })) | flag_at(
        tok,
        idx,
        WP_STYLES,
    )) | flag_at(tok, idx + 1, WP_EXSTYLES)) | flag_at(tok, idx + 2, WP_SHOWSTATE)) | flag_at(
        tok,
        idx + 3,
        WP_EXPANSION,
    )) | flag_at(tok, idx + 4, WP_CUR_TAB)) | flag_at(tok, idx + 5, WP_TABPOS))
}

/// Splits a window line into its fields.
fn split_fields(line: &[u8]) -> (tok: Vec<Vec<u8>>)
    ensures
        tok@.len() == window_tokens(line@).len(),
        forall|i: int| 0 <= i < tok@.len() ==> (#[trigger] tok@[i])@ == window_tokens(line@)[i],
{
    let mut s: Vec<u8> = copy_range(line, 0, line.len());
    proof {
        assert(line@.subrange(0, line@.len() as int) =~= line@);
    }
    let eq = find_byte_exec(&s, 0x3D, 0);
    if eq < s.len() {
        s.set(eq, 0x2C);
    }
    let ghost sg = s@;
    assert(sg == eq_to_comma(line@));
    let n = s.len();
    let mut tok: Vec<Vec<u8>> = Vec::new();
    let mut i: usize = 0;
    let mut done = false;
    while !done
        invariant
            n == sg.len(),
            s@ == sg,
            i <= n,
            forall|j: int| 0 <= j < tok@.len() ==> (#[trigger] tok@[j])@ == window_tokens(line@)[j],
            done ==> tok@.len() == window_tokens(line@).len(),
            !done ==> tok@.len() + tokens_from(sg, i as int).len() == window_tokens(line@).len(),
            !done ==> (forall|j: int|
                0 <= j < tokens_from(sg, i as int).len() ==> #[trigger] tokens_from(sg, i as int)[j]
                    == window_tokens(line@)[tok@.len() + j]),
        decreases n + 1 - i + (if done { 0int } else { 1int }),
    {
        proof {
            lemma_token_at(sg, i as int);
        }
        let ghost ts = tokens_from(sg, i as int);
        let ghost (cur_s, next_s) = token_at(sg, i as int);
        assert(ts =~= seq![cur_s] + tokens_from(sg, next_s));
        let cur: Vec<u8>;
        let mut next_end = false;
        let mut next: usize = 0;
        if i < n && s[i] == 0x22 {
            let c = find_byte_exec(&s, 0x22, i + 1);
            if c < n {
                cur = copy_range(&s, i + 1, c);
                let cm = find_byte_exec(&s, 0x2C, c + 1);
                if cm < n {
                    next = cm + 1;
                } else {
                    next_end = true;
                }
            } else {
                cur = Vec::new();
                next_end = true;
            }
        } else {
            let cm = find_byte_exec(&s, 0x2C, i);
            let part = copy_range(&s, i, cm);
            cur = trim(&part);
            if cm < n {
                next = cm + 1;
            } else {
                next_end = true;
            }
        }
        assert(cur@ == cur_s);
        assert(next_end ==> next_s == n + 1);
        assert(!next_end ==> next_s == next);
        let ghost before = tok@;
        tok.push(cur);
        proof {
            assert forall|j: int| 0 <= j < tok@.len() implies (#[trigger] tok@[j])@ == window_tokens(
                line@,
            )[j] by {
                if j < before.len() {
                    assert(tok@[j] == before[j]);
                } else {
                    assert(ts[0] == cur_s);
                }
            }
        }
        if next_end {
            done = true;
            proof {
                assert(tokens_from(sg, n + 1) =~= Seq::<Seq<u8>>::empty());
            }
        } else {
            proof {
                assert forall|j: int| 0 <= j < tokens_from(sg, next as int).len() implies #[trigger] tokens_from(
                    sg,
                    next as int,
                )[j] == window_tokens(line@)[tok@.len() + j] by {
                    assert(ts[j + 1] == tokens_from(sg, next as int)[j]);
                }
            }
            i = next;
        }
    }
    tok
}

/// The contents of each field.
pub open spec fn views(tok: Seq<Vec<u8>>) -> Seq<Seq<u8>> {
    Seq::new(tok.len(), |i: int| tok[i]@)
}

fn field(tok: &Vec<Vec<u8>>, idx: usize) -> (r: Vec<u8>)
    ensures
        r@ == str_at(views(tok@), idx as int),
{
    if idx < tok.len() {
        crate::sitemap::copy_vec(&tok[idx])
    } else {
        Vec::new()
    }
}

/// Field `idx + off` as a number, and `bit` when it is given.
fn num_field(tok: &Vec<Vec<u8>>, idx: usize, off: usize, bit: u32) -> (r: (u32, u32))
    ensures
        r.0 == num_at(views(tok@), idx + off),
        r.1 == flag_at(views(tok@), idx + off, bit),
{
    let n = tok.len();
    if idx >= n || off >= n - idx {
        return (0, 0);
    }
    let f = &tok[idx + off];
    if f.len() == 0 {
        return (0, 0);
    }
    (parse_int(f), bit)
}

fn parse_i32(t: &Vec<u8>) -> (r: Option<i32>)
    ensures
        r == i32_of(t@),
{
    let n = t.len();
    proof {
        assert(t@.subrange(0, n as int) =~= t@);
    }
    if n > 0 && t[0] == 0x2D {
        if n > 1 && t[1] == 0x2B {
            return None;
        }
        match parse_radix(t, 1, n, 10) {
            Some(v) => if v <= 0x8000_0000 { Some((-(v as i64)) as i32) } else { None },
            None => None,
        }
    } else {
        match parse_radix(t, 0, n, 10) {
            Some(v) => if v <= 0x7FFF_FFFF { Some(v as i32) } else { None },
            None => None,
        }
    }
}

fn drop_brackets_exec(f: &Vec<u8>) -> (r: Vec<u8>)
    ensures
        r@ == drop_brackets(f@),
{
    let n = f.len();
    let mut r: Vec<u8> = Vec::new();
    let mut k: usize = 0;
    while k < n
        invariant
            k <= n,
            n == f@.len(),
            r@ == drop_brackets(f@.subrange(0, k as int)),
        decreases n - k,
    {
        proof {
            assert(f@.subrange(0, k + 1).drop_last() =~= f@.subrange(0, k as int));
        }
        if f[k] != 0x5B {
            r.push(f[k]);
        }
        k = k + 1;
    }
    proof {
        assert(f@.subrange(0, n as int) =~= f@);
    }
    r
}

/// The corner text of a rectangle field and whether it closes the rectangle.
fn rect_field(f: &Vec<u8>) -> (r: (Vec<u8>, bool))
    ensures
        r.0@ == rect_text(f@),
        r.1 == rect_last(f@),
{
    let v = drop_brackets_exec(f);
    let br = find_byte_exec(&v, 0x5D, 0);
    if br < v.len() {
        (trim(&copy_range(&v, 0, br)), true)
    } else {
        (trim(&v), false)
    }
}

/// Reads a [WINDOWS] line.
pub fn parse_window_line(line: &[u8]) -> (w: Window)
    ensures
        window_of(w, line@),
{
    let tok = split_fields(line);
    let ghost tg = views(tok@);
    proof {
        assert(tg =~= window_tokens(line@));
    }
    let n = tok.len();
    let typ = field(&tok, 0);
    let caption = field(&tok, 1);
    let toc = slashes(&field(&tok, 2));
    let index = slashes(&field(&tok, 3));
    let default_file = slashes(&field(&tok, 4));
    let home = slashes(&field(&tok, 5));
    let jump1_file = slashes(&field(&tok, 6));
    let jump1_text = field(&tok, 7);
    let jump2_file = slashes(&field(&tok, 8));
    let jump2_text = field(&tok, 9);
    let (nav_style, f10) = num_field(&tok, 10, 0, WP_PROPERTIES);
    let (nav_width, f11) = num_field(&tok, 11, 0, WP_NAV_WIDTH);
    let (buttons, f12) = num_field(&tok, 12, 0, WP_TB_FLAGS);
    let mut rect: [i32; 4] = [0, 0, 0, 0];
    let mut any = false;
    let mut idx: usize = 13;
    let ghost init = seq![0i32, 0, 0, 0];
    proof {
        assert(rect@ =~= init);
    }
    if 13 < n && tok[13].len() > 0 && tok[13][0] == 0x5B {
        let mut k: usize = 0;
        while k < 4 && idx < n
            invariant_except_break
                rect_loop(tg, idx as int, k as int, rect@, any) == rect_loop(tg, 13, 0, init, false),
            invariant
                k <= 4,
                13 <= idx <= n,
                n == tg.len(),
                tg == views(tok@),
            ensures
                (rect@, any, idx as int) == rect_loop(tg, 13, 0, init, false),
            decreases 4 - k,
        {
            let (t, last) = rect_field(&tok[idx]);
            let v: i32 = match parse_i32(&t) {
                Some(x) => x,
                None => 0,
            };
            let ghost r0 = rect@;
            rect[k] = v;
            proof {
                assert(rect@ =~= r0.update(k as int, v));
            }
            any = any || t.len() > 0;
            idx = idx + 1;
            if last {
                break;
            }
            k = k + 1;
        }
    } else if 13 < n {
        idx = 14;
    }
    proof {
        assert((rect@, any, idx as int) == rect_part(tg));
    }
    let (styles, fs) = num_field(&tok, idx, 0, WP_STYLES);
    let (ex_styles, fe) = num_field(&tok, idx, 1, WP_EXSTYLES);
    let (show_state, fsh) = num_field(&tok, idx, 2, WP_SHOWSTATE);
    let (nav_closed, fnc) = num_field(&tok, idx, 3, WP_EXPANSION);
    let (nav_default, fnd) = num_field(&tok, idx, 4, WP_CUR_TAB);
    let (nav_pos, fnp) = num_field(&tok, idx, 5, WP_TABPOS);
    let (notify_id, _) = num_field(&tok, idx, 6, 0);
    let frect: u32 = if any { WP_RECT } else { 0 };
    let valid_flags: u32 = (((((((((0u32 | f10) | f11) | f12) | frect) | fs) | fe) | fsh) | fnc) | fnd)
        | fnp;
    Window {
        typ,
        caption,
        toc,
        index,
        default_file,
        home,
        jump1_file,
        jump1_text,
        jump2_file,
        jump2_text,
        nav_style,
        nav_width,
        buttons,
        rect,
        styles,
        ex_styles,
        show_state,
        nav_closed,
        nav_default,
        nav_pos,
        notify_id,
        valid_flags,
    }
}

/// A string field of a window record: text fields are encoded for the codepage,
/// path fields are stored as they are.
pub open spec fn key_of(d: Seq<u8>, encode: bool, cp: u32, ts: Seq<CodepageTable>) -> Seq<u8> {
    if encode { enc_text(d, cp, ts) } else { d }
}

/// The strings a window record refers to, in the order they are stored: type,
/// caption, TOC, index, default file, home, jump 1 text, jump 2 text, jump 1 file,
/// jump 2 file.
pub open spec fn window_keys(w: Window, cp: u32, ts: Seq<CodepageTable>) -> Seq<Seq<u8>> {
    seq![
        enc_text(w.typ@, cp, ts),
        enc_text(w.caption@, cp, ts),
        w.toc@,
        w.index@,
        w.default_file@,
        w.home@,
        enc_text(w.jump1_text@, cp, ts),
        enc_text(w.jump2_text@, cp, ts),
        w.jump1_file@,
        w.jump2_file@,
    ]
}

/// Where `st` holds each of `keys`.
pub open spec fn offsets_in(st: Strings, keys: Seq<Seq<u8>>) -> Seq<u32> {
    Seq::new(keys.len(), |i: int| st.offset_of(keys[i]))
}

/// The first 52 bytes of a window record: size, type, flags, style, caption,
/// window styles, rectangle and show state.
pub open spec fn record_head(w: Window, o: Seq<u32>) -> Seq<u8> {
    u32_le(196) + u32_le(0) + u32_le(o[0]) + u32_le(w.valid_flags) + u32_le(w.nav_style) + u32_le(
        o[1],
    ) + u32_le(w.styles) + u32_le(w.ex_styles) + i32_le(w.rect[0]) + i32_le(w.rect[1]) + i32_le(
        w.rect[2],
    ) + i32_le(w.rect[3]) + u32_le(w.show_state)
}

/// The next 80 bytes: navigation width, the TOC, index, default and home files, the
/// buttons and the navigation settings.
pub open spec fn record_mid(w: Window, o: Seq<u32>) -> Seq<u8> {
    zeros(24) + u32_le(w.nav_width) + zeros(16) + u32_le(o[2]) + u32_le(o[3]) + u32_le(o[4])
        + u32_le(o[5]) + u32_le(w.buttons) + u32_le(w.nav_closed) + u32_le(w.nav_default) + u32_le(
        w.nav_pos,
    ) + u32_le(w.notify_id)
}

/// The last 64 bytes: the jump buttons' texts and files.
pub open spec fn record_tail(o: Seq<u32>) -> Seq<u8> {
    zeros(20) + u32_le(0) + u32_le(o[6]) + u32_le(o[7]) + u32_le(o[8]) + u32_le(o[9]) + zeros(16)
        + u32_le(0) + u32_le(0)
}

/// The 196-byte #WINDOWS record of `w`, `o` giving where its strings are.
pub open spec fn window_record(w: Window, o: Seq<u32>) -> Seq<u8> {
    record_head(w, o) + record_mid(w, o) + record_tail(o)
}

/// The records of `ws`, their strings where `st` holds them.
pub open spec fn windows_bytes(ws: Seq<Window>, st: Strings, cp: u32, ts: Seq<CodepageTable>) -> Seq<u8>
    decreases ws.len(),
{
    if ws.len() == 0 {
        Seq::empty()
    } else {
        windows_bytes(ws.drop_last(), st, cp, ts) + window_record(
            ws.last(),
            offsets_in(st, window_keys(ws.last(), cp, ts)),
        )
    }
}

/// Every string the records of `ws` refer to is held by `st`.
pub open spec fn knows_windows(st: Strings, ws: Seq<Window>, cp: u32, ts: Seq<CodepageTable>) -> bool {
    forall|j: int, i: int|
        0 <= j < ws.len() && 0 <= i < 10 ==> st.knows(#[trigger] window_keys(ws[j], cp, ts)[i])
}

proof fn lemma_windows_stable(ws: Seq<Window>, a: Strings, b: Strings, cp: u32, ts: Seq<CodepageTable>)
    requires
        knows_windows(a, ws, cp, ts),
        a.grows_to(&b),
    ensures
        windows_bytes(ws, a, cp, ts) == windows_bytes(ws, b, cp, ts),
        knows_windows(b, ws, cp, ts),
    decreases ws.len(),
{
    if ws.len() > 0 {
        let d = ws.drop_last();
        assert forall|j: int, i: int| 0 <= j < d.len() && 0 <= i < 10 implies a.knows(
            #[trigger] window_keys(d[j], cp, ts)[i],
        ) by {
            assert(d[j] == ws[j]);
        }
        lemma_windows_stable(d, a, b, cp, ts);
        let keys = window_keys(ws.last(), cp, ts);
        assert forall|i: int| 0 <= i < 10 implies b.offset_of(#[trigger] keys[i]) == a.offset_of(keys[i])
            by {
            assert(keys[i] == window_keys(ws[ws.len() - 1], cp, ts)[i]);
            lemma_grows_offset(&a, &b, keys[i]);
        }
        assert(offsets_in(b, keys) =~= offsets_in(a, keys));
    }
    assert forall|j: int, i: int| 0 <= j < ws.len() && 0 <= i < 10 implies b.knows(
        #[trigger] window_keys(ws[j], cp, ts)[i],
    ) by {
        lemma_grows_offset(&a, &b, window_keys(ws[j], cp, ts)[i]);
    }
}

proof fn lemma_windows_step(ws: Seq<Window>, k: int, before: Strings, after: Strings, start: Strings, cp: u32, ts: Seq<CodepageTable>)
    requires
        0 <= k < ws.len(),
        knows_windows(before, ws.subrange(0, k), cp, ts),
        before.grows_to(&after),
        start.grows_to(&before),
        forall|i: int| 0 <= i < 10 ==> after.knows(#[trigger] window_keys(ws[k], cp, ts)[i]),
    ensures
        start.grows_to(&after),
        knows_windows(after, ws.subrange(0, k + 1), cp, ts),
        windows_bytes(ws.subrange(0, k + 1), after, cp, ts) == windows_bytes(ws.subrange(0, k), before, cp, ts)
            + window_record(ws[k], offsets_in(after, window_keys(ws[k], cp, ts))),
{
    let done = ws.subrange(0, k);
    lemma_windows_stable(done, before, after, cp, ts);
    lemma_grows_trans(&start, &before, &after);
    let next = ws.subrange(0, k + 1);
    assert(next.drop_last() =~= done);
    assert(next.last() == ws[k]);
    assert forall|j: int, i: int| 0 <= j < next.len() && 0 <= i < 10 implies after.knows(
        #[trigger] window_keys(next[j], cp, ts)[i],
    ) by {
        if j < k {
            assert(next[j] == done[j]);
        } else {
            assert(next[j] == ws[k]);
        }
    }
}

fn add_key(strings: &mut Strings, d: &Vec<u8>, encode: bool, cp: u32, tables: &[CodepageTable]) -> (r: u32)
    requires
        old(strings).wf(),
        tables_ok(tables@),
    ensures
        final(strings).wf(),
        old(strings).grows_to(&*final(strings)),
        final(strings).knows(key_of(d@, encode, cp, tables@)),
        r == final(strings).offset_of(key_of(d@, encode, cp, tables@)),
{
    if encode {
        strings.add_text(d, cp, tables)
    } else {
        strings.add(d)
    }
}

/// Stores the strings of `w` and appends its record.
fn push_window(b: &mut Buf, w: &Window, strings: &mut Strings, cp: u32, tables: &[CodepageTable])
    requires
        old(strings).wf(),
        tables_ok(tables@),
    ensures
        final(strings).wf(),
        old(strings).grows_to(&*final(strings)),
        forall|i: int| 0 <= i < 10 ==> final(strings).knows(#[trigger] window_keys(*w, cp, tables@)[i]),
        final(b)@ == old(b)@ + window_record(*w, offsets_in(*final(strings), window_keys(*w, cp, tables@))),
{
    let data: Vec<Vec<u8>> = vec![
        crate::sitemap::copy_vec(&w.typ),
        crate::sitemap::copy_vec(&w.caption),
        crate::sitemap::copy_vec(&w.toc),
        crate::sitemap::copy_vec(&w.index),
        crate::sitemap::copy_vec(&w.default_file),
        crate::sitemap::copy_vec(&w.home),
        crate::sitemap::copy_vec(&w.jump1_text),
        crate::sitemap::copy_vec(&w.jump2_text),
        crate::sitemap::copy_vec(&w.jump1_file),
        crate::sitemap::copy_vec(&w.jump2_file),
    ];
    let enc: [bool; 10] = [true, true, false, false, false, false, true, true, false, false];
    let ghost keys = window_keys(*w, cp, tables@);
    proof {
        assert forall|i: int| 0 <= i < 10 implies key_of(data@[i]@, enc@[i], cp, tables@) == keys[i] by {}
    }
    let ghost s_start = *strings;
    let mut offs: Vec<u32> = Vec::new();
    let mut k: usize = 0;
    while k < 10
        invariant
            k <= 10,
            data@.len() == 10,
            enc@.len() == 10,
            offs@.len() == k,
            strings.wf(),
            tables_ok(tables@),
            s_start.grows_to(&*strings),
            forall|i: int| 0 <= i < 10 ==> key_of(data@[i]@, enc@[i], cp, tables@) == keys[i],
            keys.len() == 10,
            forall|i: int| 0 <= i < k ==> #[trigger] strings.knows(keys[i]),
            forall|i: int| 0 <= i < k ==> #[trigger] offs@[i] == strings.offset_of(keys[i]),
        decreases 10 - k,
    {
        let ghost before = *strings;
        assert(forall|i: int| 0 <= i < k ==> #[trigger] before.knows(keys[i]));
        assert(key_of(data@[k as int]@, enc@[k as int], cp, tables@) == keys[k as int]);
        let o = add_key(strings, &data[k], enc[k], cp, tables);
        proof {
            assert forall|i: int| 0 <= i < k implies strings.knows(keys[i]) && offs@[i] == strings.offset_of(keys[i]) by {
                assert(before.knows(keys[i]));
                assert(offs@[i] == before.offset_of(keys[i]));
                lemma_grows_offset(&before, &*strings, keys[i]);
            }
            lemma_grows_trans(&s_start, &before, &*strings);
        }
        offs.push(o);
        proof {
            assert(strings.knows(keys[k as int]));
            assert(offs@[k as int] == strings.offset_of(keys[k as int]));
            assert forall|i: int| 0 <= i < k + 1 implies #[trigger] strings.knows(keys[i]) by {
                if i < k {
                    assert(before.knows(keys[i]));
                    lemma_grows_offset(&before, &*strings, keys[i]);
                }
            }
        }
        k = k + 1;
    }
    proof {
        assert(offs@ =~= offsets_in(*strings, keys));
    }
    write_record(b, w, &offs);
}

/// Appends the record of `w`, `offs` giving where its strings are.
fn write_record(b: &mut Buf, w: &Window, offs: &Vec<u32>)
    requires
        offs@.len() == 10,
    ensures
        final(b)@ == old(b)@ + window_record(*w, offs@),
{
    write_head(b, w, offs);
    let ghost b1 = b@;
    write_mid(b, w, offs);
    let ghost b2 = b@;
    write_tail(b, offs);
    assert(b@ =~= old(b)@ + window_record(*w, offs@));
}

fn write_head(b: &mut Buf, w: &Window, offs: &Vec<u32>)
    requires
        offs@.len() == 10,
    ensures
        final(b)@ == old(b)@ + record_head(*w, offs@),
{
    b.u32(196);
    b.u32(0);
    b.u32(offs[0]);
    b.u32(w.valid_flags);
    b.u32(w.nav_style);
    b.u32(offs[1]);
    b.u32(w.styles);
    b.u32(w.ex_styles);
    b.i32(w.rect[0]);
    b.i32(w.rect[1]);
    b.i32(w.rect[2]);
    b.i32(w.rect[3]);
    b.u32(w.show_state);
    assert(b@ =~= old(b)@ + record_head(*w, offs@));
}

fn write_mid(b: &mut Buf, w: &Window, offs: &Vec<u32>)
    requires
        offs@.len() == 10,
    ensures
        final(b)@ == old(b)@ + record_mid(*w, offs@),
{
    b.zeros(6 * 4);
    b.u32(w.nav_width);
    b.zeros(4 * 4);
    b.u32(offs[2]);
    b.u32(offs[3]);
    b.u32(offs[4]);
    b.u32(offs[5]);
    b.u32(w.buttons);
    b.u32(w.nav_closed);
    b.u32(w.nav_default);
    b.u32(w.nav_pos);
    b.u32(w.notify_id);
    assert(b@ =~= old(b)@ + record_mid(*w, offs@));
}

fn write_tail(b: &mut Buf, offs: &Vec<u32>)
    requires
        offs@.len() == 10,
    ensures
        final(b)@ == old(b)@ + record_tail(offs@),
{
    b.zeros(5 * 4);
    b.u32(0);
    b.u32(offs[6]);
    b.u32(offs[7]);
    b.u32(offs[8]);
    b.u32(offs[9]);
    b.zeros(4 * 4);
    b.u32(0);
    b.u32(0);
    assert(b@ =~= old(b)@ + record_tail(offs@));
}

/// Builds #WINDOWS: nothing without windows, else the count, the record size 196
/// and each window's record, its strings stored in `strings`.
pub fn build_windows(windows: &[Window], strings: &mut Strings, cp: u32, tables: &[CodepageTable]) -> (r: Vec<u8>)
    requires
        old(strings).wf(),
        tables_ok(tables@),
    ensures
        final(strings).wf(),
        old(strings).grows_to(&*final(strings)),
        windows@.len() == 0 ==> r@.len() == 0 && *final(strings) == *old(strings),
        windows@.len() > 0 ==> r@ == u32_le(windows@.len() as u32) + u32_le(196) + windows_bytes(
            windows@,
            *final(strings),
            cp,
            tables@,
        ),
        knows_windows(*final(strings), windows@, cp, tables@),
{
    let n = windows.len();
    proof {
        assert(old(strings).buf@.subrange(0, old(strings).buf@.len() as int) =~= old(strings).buf@);
    }
    if n == 0 {
        return Vec::new();
    }
    let mut b = Buf::new();
    b.u32(n as u32);
    b.u32(196);
    let ghost hdr = b@;
    let mut k: usize = 0;
    proof {
        assert(windows@.subrange(0, 0) =~= Seq::<Window>::empty());
    }
    while k < n
        invariant
            k <= n,
            n == windows@.len(),
            strings.wf(),
            tables_ok(tables@),
            old(strings).grows_to(&*strings),
            b@ == hdr + windows_bytes(windows@.subrange(0, k as int), *strings, cp, tables@),
            knows_windows(*strings, windows@.subrange(0, k as int), cp, tables@),
        decreases n - k,
    {
        let ghost before = *strings;
        let ghost b_before = b@;
        push_window(&mut b, &windows[k], strings, cp, tables);
        proof {
            lemma_windows_step(windows@, k as int, before, *strings, *old(strings), cp, tables@);
            assert(b@ == b_before + window_record(windows@[k as int], offsets_in(*strings, window_keys(windows@[k as int], cp, tables@))));
        }
        k = k + 1;
    }
    proof {
        assert(windows@.subrange(0, n as int) =~= windows@);
    }
    b.v
}

} // verus!
