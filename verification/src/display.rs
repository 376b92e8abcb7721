//! Human-readable renderings of token data: text where the bytes are UTF-8,
//! and a list of byte values otherwise.

use vstd::prelude::*;
use vstd::string::{StringExecFns, StringSliceAdditionalSpecFns};
use vstd::utf8::{decode_utf8, valid_utf8};

use crate::utf8::{lemma_str_chars, str_from_utf8};

verus! {

/// The decimal digit character for `d`, which is below ten.
pub open spec fn digit_char(d: nat) -> char {
    ((48 + d) as u32) as char
}

/// The decimal digits of `n`, without leading zeros.
pub open spec fn decimal(n: nat) -> Seq<char>
    decreases n,
{
    if n < 10 {
        seq![digit_char(n)]
    } else {
        decimal(n / 10) + seq![digit_char(n % 10)]
    }
}

/// The byte values of `bs` in decimal, separated by `", "`.
pub open spec fn byte_list(bs: Seq<u8>) -> Seq<char>
    decreases bs.len(),
{
    if bs.len() == 0 {
        Seq::empty()
    } else if bs.len() == 1 {
        decimal(bs[0] as nat)
    } else {
        byte_list(bs.drop_last()) + seq![',', ' '] + decimal(bs.last() as nat)
    }
}

/// The list rendering of bytes: their values in square brackets.
pub open spec fn bytes_debug(bs: Seq<u8>) -> Seq<char> {
    seq!['['] + byte_list(bs) + seq![']']
}

/// Bytes that are not text, as the list of their values, cut after 24 bytes
/// with `" ..."` appended.
pub open spec fn bytes_shown(bs: Seq<u8>) -> Seq<char> {
    if bs.len() < 25 {
        bytes_debug(bs)
    } else {
        bytes_debug(bs.take(24)) + seq![' ', '.', '.', '.']
    }
}

/// How token data is displayed: as its text where it is UTF-8, else as its bytes.
pub open spec fn data_display(bs: Seq<u8>) -> Seq<char> {
    if valid_utf8(bs) {
        decode_utf8(bs)
    } else {
        bytes_shown(bs)
    }
}

/// How token data is shown for debugging: as its quoted and escaped text
/// where it is UTF-8, else as its bytes.
pub open spec fn data_debug(bs: Seq<u8>) -> Seq<char> {
    if valid_utf8(bs) {
        str_debug_chars(decode_utf8(bs))
    } else {
        bytes_shown(bs)
    }
}

/// What the `Debug` rendering of a string slice holds, given its characters.
pub uninterp spec fn str_debug_chars(s: Seq<char>) -> Seq<char>;

/// Calls the `Debug` rendering of `str` (through `format!("{:?}", ..)`): the
/// result depends on the characters alone. That it is the text in double
/// quotes with special characters escaped is left unsaid.
#[verifier::external_body]
pub(crate) fn str_debug(s: &str) -> (r: String)
    ensures
        r@ == str_debug_chars(s@),
{
    format!("{:?}", s)
}

/// The string of the decimal digit `d`.
fn digit_str(d: u64) -> (s: &'static str)
    requires
        d < 10,
    ensures
        s@ == seq![digit_char(d as nat)],
{
    match d {
        0 => {
            proof {
                reveal_strlit("0");
            }
            "0"
        },
        1 => {
            proof {
                reveal_strlit("1");
            }
            "1"
        },
        2 => {
            proof {
                reveal_strlit("2");
            }
            "2"
        },
        3 => {
            proof {
                reveal_strlit("3");
            }
            "3"
        },
        4 => {
            proof {
                reveal_strlit("4");
            }
            "4"
        },
        5 => {
            proof {
                reveal_strlit("5");
            }
            "5"
        },
        6 => {
            proof {
                reveal_strlit("6");
            }
            "6"
        },
        7 => {
            proof {
                reveal_strlit("7");
            }
            "7"
        },
        8 => {
            proof {
                reveal_strlit("8");
            }
            "8"
        },
        _ => {
            proof {
                reveal_strlit("9");
            }
            "9"
        },
    }
}

/// Appends the decimal digits of `n` to `out`.
pub fn push_decimal(out: &mut String, n: u64)
    ensures
        final(out)@ == old(out)@ + decimal(n as nat),
    decreases n,
{
    if n >= 10 {
        push_decimal(out, n / 10);
    }
    let ghost mid = out@;
    out.append(digit_str(n % 10));
    proof {
        if n >= 10 {
            assert(out@ =~= old(out)@ + decimal(n as nat));
        } else {
            assert(out@ =~= old(out)@ + decimal(n as nat));
        }
    }
}

/// Appends the list rendering of `bytes` to `out`.
pub(crate) fn push_bytes_debug(out: &mut String, bytes: &[u8])
    ensures
        final(out)@ == old(out)@ + bytes_debug(bytes@),
{
    proof {
        reveal_strlit("[");
        reveal_strlit(", ");
        reveal_strlit("]");
    }
    out.append("[");
    let ghost start = out@;
    let mut i: usize = 0;
    proof {
        assert(bytes@.take(0) =~= Seq::<u8>::empty());
        assert(out@ =~= start + byte_list(bytes@.take(0)));
    }
    while i < bytes.len()
        invariant
            i <= bytes@.len(),
            out@ == start + byte_list(bytes@.take(i as int)),
            start == old(out)@ + seq!['['],
        decreases bytes@.len() - i,
    {
        let ghost before = out@;
        proof {
            reveal_strlit(", ");
        }
        if i > 0 {
            out.append(", ");
        }
        push_decimal(out, bytes[i] as u64);
        proof {
            let pre = bytes@.take(i as int);
            let next = bytes@.take(i + 1);
            assert(next.drop_last() =~= pre);
            assert(next.last() == bytes@[i as int]);
            if i > 0 {
                assert(out@ =~= start + byte_list(next));
            } else {
                assert(pre =~= Seq::<u8>::empty());
                assert(out@ =~= start + byte_list(next));
            }
        }
        i = i + 1;
    }
    out.append("]");
    proof {
        assert(bytes@.take(bytes@.len() as int) =~= bytes@);
        assert(out@ =~= old(out)@ + bytes_debug(bytes@));
    }
}

/// Appends the rendering of bytes that are not text to `out`.
fn push_bytes_shown(out: &mut String, bytes: &[u8])
    ensures
        final(out)@ == old(out)@ + bytes_shown(bytes@),
{
    if bytes.len() < 25 {
        push_bytes_debug(out, bytes);
    } else {
        let head = vstd::slice::slice_subrange(bytes, 0, 24);
        proof {
            assert(head@ =~= bytes@.take(24));
            reveal_strlit(" ...");
        }
        push_bytes_debug(out, head);
        out.append(" ...");
        proof {
            assert(out@ =~= old(out)@ + bytes_shown(bytes@));
        }
    }
}

/// Token data as displayed: its text where it is UTF-8, else the values of
/// its bytes (at most 24, then `" ..."`).
pub fn fmt_data_display(bytes: &[u8]) -> (r: String)
    ensures
        r@ == data_display(bytes@),
{
    match str_from_utf8(bytes) {
        Some(text) => {
            proof {
                lemma_str_chars(text);
            }
            text.to_owned()
        },
        None => {
            let mut out = String::new();
            push_bytes_shown(&mut out, bytes);
            proof {
                assert(out@ =~= data_display(bytes@));
            }
            out
        },
    }
}

/// Token data as shown for debugging: its quoted text where it is UTF-8, else
/// the values of its bytes (at most 24, then `" ..."`).
pub fn fmt_data_debug(bytes: &[u8]) -> (r: String)
    ensures
        r@ == data_debug(bytes@),
{
    match str_from_utf8(bytes) {
        Some(text) => {
            proof {
                lemma_str_chars(text);
            }
            str_debug(text)
        },
        None => {
            let mut out = String::new();
            push_bytes_shown(&mut out, bytes);
            proof {
                assert(out@ =~= data_debug(bytes@));
            }
            out
        },
    }
}

} // verus!
