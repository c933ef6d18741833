//! The metadata sidecar format: pretty-printed JSON, two-space indent.
//!
//! The format is defined byte by byte as spec functions, each of which
//! appends one piece to an output prefix; the emitter follows the same
//! order, so the bytes it produces are exactly the bytes the specification
//! names. The output is a pure function of the sheet value: identical
//! sheets serialize to identical bytes.

use vstd::prelude::*;
use vstd::utf8::encode_utf8;
use vstd::string::StringSliceAdditionalSpecFns;
use crate::sheet::{Frame, SheetView, GroupView, SpriteSheet};

verus! {

/// `s` with the bytes of `t` appended.
pub open spec fn lit_onto(s: Seq<u8>, t: Seq<u8>) -> Seq<u8> {
    s + t
}

/// `s` with the decimal digits of `n` appended.
pub open spec fn dec_onto(s: Seq<u8>, n: nat) -> Seq<u8>
    decreases n,
{
    if n < 10 {
        s.push((0x30 + n) as u8)
    } else {
        dec_onto(s, n / 10).push((0x30 + n % 10) as u8)
    }
}

/// `s` with the decimal form of the integer `v` appended, minus sign first
/// when `v` is negative.
pub open spec fn int_onto(s: Seq<u8>, v: int) -> Seq<u8> {
    if v < 0 {
        dec_onto(s.push(0x2D), (-v) as nat)
    } else {
        dec_onto(s, v as nat)
    }
}

/// The lowercase hexadecimal digit for `n`.
pub open spec fn hex_digit(n: u8) -> u8 {
    if n < 10 {
        (0x30 + n) as u8
    } else {
        (0x61 + (n - 10)) as u8
    }
}

/// `s` with one string byte appended, escaped as JSON requires: quotes and
/// backslashes with a backslash, the named control characters with their
/// short forms, other control bytes as `\u00..`, and everything else as
/// itself. Bytes of multi-byte characters are all above the control range,
/// so escaping the byte stream escapes exactly the characters.
pub open spec fn esc_byte_onto(s: Seq<u8>, b: u8) -> Seq<u8> {
    if b == 0x22 {
        s.push(0x5C).push(0x22)
    } else if b == 0x5C {
        s.push(0x5C).push(0x5C)
    } else if b == 0x08 {
        s.push(0x5C).push(0x62)
    } else if b == 0x09 {
        s.push(0x5C).push(0x74)
    } else if b == 0x0A {
        s.push(0x5C).push(0x6E)
    } else if b == 0x0C {
        s.push(0x5C).push(0x66)
    } else if b == 0x0D {
        s.push(0x5C).push(0x72)
    } else if b < 0x20 {
        s.push(0x5C).push(0x75).push(0x30).push(0x30).push(hex_digit(b / 16)).push(hex_digit(b % 16))
    } else {
        s.push(b)
    }
}

/// `s` with the first `i` bytes of `t` appended, each escaped.
pub open spec fn esc_bytes_onto(s: Seq<u8>, t: Seq<u8>, i: int) -> Seq<u8>
    decreases i,
{
    if i <= 0 {
        s
    } else {
        esc_byte_onto(esc_bytes_onto(s, t, i - 1), t[i - 1])
    }
}

/// `s` with a JSON string literal for `chars` appended: a quote, the
/// escaped UTF-8 bytes, a quote.
pub open spec fn jstr_onto(s: Seq<u8>, chars: Seq<char>) -> Seq<u8> {
    let bs = encode_utf8(chars);
    esc_bytes_onto(s.push(0x22), bs, bs.len() as int).push(0x22)
}

/// `s` with one frame object appended, fields in the documented order.
pub open spec fn frame_onto(s: Seq<u8>, f: Frame) -> Seq<u8> {
    let s = lit_onto(s, ("{\n        \"x\": ").spec_bytes());
    let s = dec_onto(s, f.x as nat);
    let s = lit_onto(s, (",\n        \"y\": ").spec_bytes());
    let s = dec_onto(s, f.y as nat);
    let s = lit_onto(s, (",\n        \"width\": ").spec_bytes());
    let s = dec_onto(s, f.width as nat);
    let s = lit_onto(s, (",\n        \"height\": ").spec_bytes());
    let s = dec_onto(s, f.height as nat);
    let s = lit_onto(s, (",\n        \"original_width\": ").spec_bytes());
    let s = dec_onto(s, f.original_width as nat);
    let s = lit_onto(s, (",\n        \"original_height\": ").spec_bytes());
    let s = dec_onto(s, f.original_height as nat);
    let s = lit_onto(s, (",\n        \"top_left_offset_x\": ").spec_bytes());
    let s = dec_onto(s, f.top_left_offset_x as nat);
    let s = lit_onto(s, (",\n        \"top_left_offset_y\": ").spec_bytes());
    let s = dec_onto(s, f.top_left_offset_y as nat);
    let s = lit_onto(s, (",\n        \"center_offset_x\": ").spec_bytes());
    let s = int_onto(s, f.center_offset_x as int);
    let s = lit_onto(s, (",\n        \"center_offset_y\": ").spec_bytes());
    let s = int_onto(s, f.center_offset_y as int);
    lit_onto(s, ("\n      }").spec_bytes())
}

/// `s` with the first `i` frame objects appended, comma-separated, the
/// array opener before the first.
pub open spec fn frame_items_onto(s: Seq<u8>, frames: Seq<Frame>, i: int) -> Seq<u8>
    decreases i,
{
    if i <= 0 {
        s
    } else if i == 1 {
        frame_onto(lit_onto(s, ("[\n      ").spec_bytes()), frames[0])
    } else {
        frame_onto(lit_onto(frame_items_onto(s, frames, i - 1), (",\n      ").spec_bytes()),
            frames[i - 1])
    }
}

/// `s` with the JSON array of all frames appended.
pub open spec fn frames_onto(s: Seq<u8>, frames: Seq<Frame>) -> Seq<u8> {
    if frames.len() == 0 {
        lit_onto(s, ("[]").spec_bytes())
    } else {
        lit_onto(frame_items_onto(s, frames, frames.len() as int), ("\n    ]").spec_bytes())
    }
}

/// `s` with the first `i` group entries appended, each a key and its frame
/// array, the object opener before the first.
pub open spec fn group_items_onto(s: Seq<u8>, groups: Seq<GroupView>, i: int) -> Seq<u8>
    decreases i,
{
    if i <= 0 {
        s
    } else if i == 1 {
        frames_onto(lit_onto(jstr_onto(lit_onto(s, ("{\n    ").spec_bytes()), groups[0].key),
            (": ").spec_bytes()), groups[0].frames)
    } else {
        frames_onto(lit_onto(jstr_onto(lit_onto(group_items_onto(s, groups, i - 1),
            (",\n    ").spec_bytes()), groups[i - 1].key), (": ").spec_bytes()),
            groups[i - 1].frames)
    }
}

/// `s` with the JSON object mapping each group key to its frames appended.
pub open spec fn groups_onto(s: Seq<u8>, groups: Seq<GroupView>) -> Seq<u8> {
    if groups.len() == 0 {
        lit_onto(s, ("{}").spec_bytes())
    } else {
        lit_onto(group_items_onto(s, groups, groups.len() as int), ("\n  }").spec_bytes())
    }
}

/// The complete sidecar document for a sheet: width, height, name and the
/// group mapping, pretty-printed with two-space indentation.
pub open spec fn json_of_sheet(s: SheetView) -> Seq<u8> {
    let o = lit_onto(Seq::empty(), ("{\n  \"width\": ").spec_bytes());
    let o = dec_onto(o, s.width as nat);
    let o = lit_onto(o, (",\n  \"height\": ").spec_bytes());
    let o = dec_onto(o, s.height as nat);
    let o = lit_onto(o, (",\n  \"name\": ").spec_bytes());
    let o = jstr_onto(o, s.name);
    let o = lit_onto(o, (",\n  \"sprites\": ").spec_bytes());
    let o = groups_onto(o, s.sprites);
    lit_onto(o, ("\n}").spec_bytes())
}

/// Appends the bytes of a literal piece.
fn push_lit(out: &mut Vec<u8>, t: &str)
    ensures
        final(out)@ == lit_onto(old(out)@, t.spec_bytes()),
{
    let bs = t.as_bytes();
    let n = bs.len();
    let mut i: usize = 0;
    while i < n
        invariant
            i <= n,
            n == bs@.len(),
            bs@ == t.spec_bytes(),
            out@ == old(out)@ + bs@.take(i as int),
        decreases n - i,
    {
        let b = bs[i];
        out.push(b);
        proof {
            assert(out@ =~= old(out)@ + bs@.take(i + 1));
        }
        i = i + 1;
    }
    proof {
        assert(bs@.take(n as int) =~= bs@);
    }
}

/// Appends the decimal digits of `n`.
fn push_dec(out: &mut Vec<u8>, n: u64)
    ensures
        final(out)@ == dec_onto(old(out)@, n as nat),
    decreases n,
{
    if n >= 10 {
        push_dec(out, n / 10);
    }
    out.push(0x30 + ((n % 10) as u8));
}

/// Appends the decimal form of `v`, minus sign first when negative.
fn push_int(out: &mut Vec<u8>, v: i64)
    requires
        i32::MIN <= v <= i32::MAX,
    ensures
        final(out)@ == int_onto(old(out)@, v as int),
{
    if v < 0 {
        out.push(0x2D);
        push_dec(out, (-v) as u64);
    } else {
        push_dec(out, v as u64);
    }
}

/// Appends a JSON string literal for `t`.
fn push_jstr(out: &mut Vec<u8>, t: &str)
    ensures
        final(out)@ == jstr_onto(old(out)@, t@),
{
    out.push(0x22);
    let bs = t.as_bytes();
    let n = bs.len();
    let mut i: usize = 0;
    while i < n
        invariant
            i <= n,
            n == bs@.len(),
            bs@ == encode_utf8(t@),
            out@ == esc_bytes_onto(old(out)@.push(0x22), bs@, i as int),
        decreases n - i,
    {
        let b = bs[i];
        if b == 0x22 {
            out.push(0x5C);
            out.push(0x22);
        } else if b == 0x5C {
            out.push(0x5C);
            out.push(0x5C);
        } else if b == 0x08 {
            out.push(0x5C);
            out.push(0x62);
        } else if b == 0x09 {
            out.push(0x5C);
            out.push(0x74);
        } else if b == 0x0A {
            out.push(0x5C);
            out.push(0x6E);
        } else if b == 0x0C {
            out.push(0x5C);
            out.push(0x66);
        } else if b == 0x0D {
            out.push(0x5C);
            out.push(0x72);
        } else if b < 0x20 {
            out.push(0x5C);
            out.push(0x75);
            out.push(0x30);
            out.push(0x30);
            let hi = b / 16;
            let lo = b % 16;
            out.push(if hi < 10 { 0x30 + hi } else { 0x61 + (hi - 10) });
            out.push(if lo < 10 { 0x30 + lo } else { 0x61 + (lo - 10) });
        } else {
            out.push(b);
        }
        i = i + 1;
    }
    out.push(0x22);
}

/// Appends one frame object.
fn push_frame(out: &mut Vec<u8>, f: &Frame)
    ensures
        final(out)@ == frame_onto(old(out)@, *f),
{
    push_lit(out, "{\n        \"x\": ");
    push_dec(out, f.x as u64);
    push_lit(out, ",\n        \"y\": ");
    push_dec(out, f.y as u64);
    push_lit(out, ",\n        \"width\": ");
    push_dec(out, f.width as u64);
    push_lit(out, ",\n        \"height\": ");
    push_dec(out, f.height as u64);
    push_lit(out, ",\n        \"original_width\": ");
    push_dec(out, f.original_width as u64);
    push_lit(out, ",\n        \"original_height\": ");
    push_dec(out, f.original_height as u64);
    push_lit(out, ",\n        \"top_left_offset_x\": ");
    push_dec(out, f.top_left_offset_x as u64);
    push_lit(out, ",\n        \"top_left_offset_y\": ");
    push_dec(out, f.top_left_offset_y as u64);
    push_lit(out, ",\n        \"center_offset_x\": ");
    push_int(out, f.center_offset_x as i64);
    push_lit(out, ",\n        \"center_offset_y\": ");
    push_int(out, f.center_offset_y as i64);
    push_lit(out, "\n      }");
}

/// Serializes a sheet to its sidecar document. The bytes are exactly
/// `json_of_sheet` of the sheet's value, so equal sheets give identical
/// output.
pub fn to_json(sheet: &SpriteSheet) -> (r: Vec<u8>)
    ensures
        r@ == json_of_sheet(sheet@),
{
    let mut out: Vec<u8> = Vec::new();
    proof {
        assert(out@ =~= Seq::<u8>::empty());
    }
    push_lit(&mut out, "{\n  \"width\": ");
    push_dec(&mut out, sheet.width as u64);
    push_lit(&mut out, ",\n  \"height\": ");
    push_dec(&mut out, sheet.height as u64);
    push_lit(&mut out, ",\n  \"name\": ");
    push_jstr(&mut out, sheet.name.as_str());
    push_lit(&mut out, ",\n  \"sprites\": ");

    let gn = sheet.sprites.len();
    let ghost gview: Seq<GroupView> = sheet@.sprites;
    if gn == 0 {
        push_lit(&mut out, "{}");
    } else {
        let ghost base = out@;
        let mut gi: usize = 0;
        while gi < gn
            invariant
                0 <= gi <= gn,
                gn == sheet.sprites@.len(),
                gview == sheet@.sprites,
                gi > 0 ==> out@ == group_items_onto(base, gview, gi as int),
                gi == 0 ==> out@ == base,
            decreases gn - gi,
        {
            if gi == 0 {
                push_lit(&mut out, "{\n    ");
            } else {
                push_lit(&mut out, ",\n    ");
            }
            push_jstr(&mut out, sheet.sprites[gi].key.as_str());
            push_lit(&mut out, ": ");

            let fcount = sheet.sprites[gi].frames.len();
            proof {
                assert(sheet@.sprites[gi as int].key == sheet.sprites@[gi as int].key@);
                assert(sheet@.sprites[gi as int].frames == sheet.sprites@[gi as int].frames@);
            }
            if fcount == 0 {
                push_lit(&mut out, "[]");
            } else {
                let ghost fbase = out@;
                let mut fi: usize = 0;
                while fi < fcount
                    invariant
                        0 <= fi <= fcount,
                        fcount == sheet.sprites@[gi as int].frames@.len(),
                        gi < gn,
                        gn == sheet.sprites@.len(),
                        fi > 0 ==> out@ == frame_items_onto(fbase,
                            sheet.sprites@[gi as int].frames@, fi as int),
                        fi == 0 ==> out@ == fbase,
                    decreases fcount - fi,
                {
                    if fi == 0 {
                        push_lit(&mut out, "[\n      ");
                    } else {
                        push_lit(&mut out, ",\n      ");
                    }
                    let fr = sheet.sprites[gi].frames[fi];
                    push_frame(&mut out, &fr);
                    fi = fi + 1;
                }
                push_lit(&mut out, "\n    ]");
                proof {
                    assert(out@ == frames_onto(fbase, sheet@.sprites[gi as int].frames));
                }
            }
            gi = gi + 1;
        }
        push_lit(&mut out, "\n  }");
        proof {
            assert(out@ == groups_onto(base, gview));
        }
    }
    push_lit(&mut out, "\n}");
    out
}
} // verus!
