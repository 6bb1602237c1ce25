//! Command shell: reads one line at a time over the UART, validates it as
//! UTF-8, splits it on single spaces, and dispatches the first token against
//! a fixed command table.
//!
//! All text the shell emits is pinned down by spec functions over byte
//! sequences, so the whole operator dialogue — prompt, echo, reply — is part
//! of the verified contract.

use vstd::prelude::*;
use vstd::utf8::is_continuation_byte;
use vstd::utf8::partial_valid_partial_invalid_utf8;
use vstd::utf8::partial_valid_utf8;
use vstd::utf8::partial_valid_utf8_extend;
use vstd::utf8::valid_first_scalar;
use vstd::utf8::valid_utf8;

use crate::mmio::Bus;
use crate::mmio::UART0_DR;
use crate::mmio::cfg_eq;
use crate::uart;
use crate::uart::dr_writes;
use crate::uart::lemma_dr_writes_concat;

verus! {

/// Capacity of the line buffer: the longest command line the shell accepts.
pub const MAX_COMMAND_LEN: usize = 128;

/// The canonical line break the shell emits: carriage return, line feed.
pub open spec fn crlf_spec() -> Seq<u8> {
    seq![13u8, 10u8]
}

/// The prompt, `bk> `.
pub open spec fn prompt_spec() -> Seq<u8> {
    seq![98u8, 107u8, 62u8, 32u8]
}

/// The name of the `echo` built-in.
pub open spec fn echo_name_spec() -> Seq<u8> {
    seq![101u8, 99u8, 104u8, 111u8]
}

/// The name of the `exe` built-in.
pub open spec fn exe_name_spec() -> Seq<u8> {
    seq![101u8, 120u8, 101u8]
}

/// `Unrecognized command: '`, the text before the offending name.
pub open spec fn unrecognized_prefix_spec() -> Seq<u8> {
    seq![
        85u8, 110u8, 114u8, 101u8, 99u8, 111u8, 103u8, 110u8, 105u8, 122u8, 101u8, 100u8, 32u8,
        99u8, 111u8, 109u8, 109u8, 97u8, 110u8, 100u8, 58u8, 32u8, 39u8,
    ]
}

/// `'` and a line break, the text after the offending name.
pub open spec fn unrecognized_suffix_spec() -> Seq<u8> {
    seq![39u8, 13u8, 10u8]
}

/// `Invalid command. Must be valid utf8.` and a line break.
pub open spec fn invalid_utf8_msg_spec() -> Seq<u8> {
    seq![
        73u8, 110u8, 118u8, 97u8, 108u8, 105u8, 100u8, 32u8, 99u8, 111u8, 109u8, 109u8, 97u8,
        110u8, 100u8, 46u8, 32u8, 77u8, 117u8, 115u8, 116u8, 32u8, 98u8, 101u8, 32u8, 118u8, 97u8,
        108u8, 105u8, 100u8, 32u8, 117u8, 116u8, 102u8, 56u8, 46u8, 13u8, 10u8,
    ]
}

/// The prompt as a buffer.
fn prompt_msg() -> (v: Vec<u8>)
    ensures
        v@ == prompt_spec(),
{
    let mut v: Vec<u8> = Vec::new();
    v.push(98);
    v.push(107);
    v.push(62);
    v.push(32);
    proof {
        assert(v@ =~= prompt_spec());
    }
    v
}

/// The name of the `echo` built-in as a buffer.
fn echo_name() -> (v: Vec<u8>)
    ensures
        v@ == echo_name_spec(),
{
    let mut v: Vec<u8> = Vec::new();
    v.push(101);
    v.push(99);
    v.push(104);
    v.push(111);
    proof {
        assert(v@ =~= echo_name_spec());
    }
    v
}

/// The name of the `exe` built-in as a buffer.
fn exe_name() -> (v: Vec<u8>)
    ensures
        v@ == exe_name_spec(),
{
    let mut v: Vec<u8> = Vec::new();
    v.push(101);
    v.push(120);
    v.push(101);
    proof {
        assert(v@ =~= exe_name_spec());
    }
    v
}

/// The text before the offending name as a buffer.
fn unrecognized_prefix() -> (v: Vec<u8>)
    ensures
        v@ == unrecognized_prefix_spec(),
{
    let mut v: Vec<u8> = Vec::new();
    v.push(85);
    v.push(110);
    v.push(114);
    v.push(101);
    v.push(99);
    v.push(111);
    v.push(103);
    v.push(110);
    v.push(105);
    v.push(122);
    v.push(101);
    v.push(100);
    v.push(32);
    v.push(99);
    v.push(111);
    v.push(109);
    v.push(109);
    v.push(97);
    v.push(110);
    v.push(100);
    v.push(58);
    v.push(32);
    v.push(39);
    proof {
        assert(v@ =~= unrecognized_prefix_spec());
    }
    v
}

/// The text after the offending name as a buffer.
fn unrecognized_suffix() -> (v: Vec<u8>)
    ensures
        v@ == unrecognized_suffix_spec(),
{
    let mut v: Vec<u8> = Vec::new();
    v.push(39);
    v.push(13);
    v.push(10);
    proof {
        assert(v@ =~= unrecognized_suffix_spec());
    }
    v
}

/// The encoding diagnostic as a buffer.
fn invalid_utf8_msg() -> (v: Vec<u8>)
    ensures
        v@ == invalid_utf8_msg_spec(),
{
    let mut v: Vec<u8> = Vec::new();
    v.push(73);
    v.push(110);
    v.push(118);
    v.push(97);
    v.push(108);
    v.push(105);
    v.push(100);
    v.push(32);
    v.push(99);
    v.push(111);
    v.push(109);
    v.push(109);
    v.push(97);
    v.push(110);
    v.push(100);
    v.push(46);
    v.push(32);
    v.push(77);
    v.push(117);
    v.push(115);
    v.push(116);
    v.push(32);
    v.push(98);
    v.push(101);
    v.push(32);
    v.push(118);
    v.push(97);
    v.push(108);
    v.push(105);
    v.push(100);
    v.push(32);
    v.push(117);
    v.push(116);
    v.push(102);
    v.push(56);
    v.push(46);
    v.push(13);
    v.push(10);
    proof {
        assert(v@ =~= invalid_utf8_msg_spec());
    }
    v
}

/// Byte-wise equality of two buffers.
fn bytes_eq(a: &[u8], b: &[u8]) -> (r: bool)
    ensures
        r == (a@ == b@),
{
    if a.len() != b.len() {
        return false;
    }
    let mut i: usize = 0;
    while i < a.len()
        invariant
            i <= a@.len(),
            a@.len() == b@.len(),
            forall|j: int| 0 <= j < i ==> a@[j] == b@[j],
        decreases a@.len() - i,
    {
        if a[i] != b[i] {
            return false;
        }
        i = i + 1;
    }
    proof {
        assert(a@ =~= b@);
    }
    true
}

/// Decide whether `s` is a valid UTF-8 encoding, scalar by scalar. The
/// decision is specified against the UTF-8 model in `vstd`: well-formed
/// leading and continuation bytes, no overlong encodings, no surrogates.
pub fn is_valid_utf8(s: &[u8]) -> (r: bool)
    ensures
        r == valid_utf8(s@),
{
    let n = s.len();
    let mut i: usize = 0;
    while i < n
        invariant
            i <= n,
            n == s@.len(),
            partial_valid_utf8(s@, i as int),
        decreases n - i,
    {
        let ghost rest = s@.subrange(i as int, n as int);
        let b0 = s[i];
        let width: usize;
        if b0 <= 0x7F {
            // One byte: the codepoint is the byte itself, below the
            // surrogate range, and one-byte encodings are never overlong.
            proof {
                assert(valid_first_scalar(rest));
            }
            width = 1;
        } else if 0xC0 <= b0 && b0 <= 0xDF {
            if n - i < 2 || !cont_byte(s[i + 1]) {
                proof {
                    lemma_invalid_here(s@, i as int);
                }
                return false;
            }
            let b1 = s[i + 1];
            let cp: u32 = (((b0 & 0x1F) as u32) << 6) | ((b1 & 0x3F) as u32);
            if cp < 0x80 {
                // Overlong two-byte encoding.
                proof {
                    lemma_invalid_here(s@, i as int);
                }
                return false;
            }
            width = 2;
            proof {
                // A two-byte codepoint is at most 0x7FF, below the surrogates.
                assert(((((b0 & 0x1F) as u32) << 6) | ((b1 & 0x3F) as u32)) <= 0x7FF)
                    by (bit_vector);
                assert(valid_first_scalar(rest));
            }
        } else if 0xE0 <= b0 && b0 <= 0xEF {
            if n - i < 3 || !cont_byte(s[i + 1]) || !cont_byte(s[i + 2]) {
                proof {
                    lemma_invalid_here(s@, i as int);
                }
                return false;
            }
            let b1 = s[i + 1];
            let b2 = s[i + 2];
            let cp: u32 = (((b0 & 0x0F) as u32) << 12) | (((b1 & 0x3F) as u32) << 6) | ((b2
                & 0x3F) as u32);
            if cp < 0x800 || (0xD800 <= cp && cp <= 0xDFFF) {
                // Overlong three-byte encoding, or a surrogate.
                proof {
                    lemma_invalid_here(s@, i as int);
                }
                return false;
            }
            width = 3;
            proof {
                assert(valid_first_scalar(rest));
            }
        } else if 0xF0 <= b0 && b0 <= 0xF7 {
            if n - i < 4 || !cont_byte(s[i + 1]) || !cont_byte(s[i + 2]) || !cont_byte(s[i + 3]) {
                proof {
                    lemma_invalid_here(s@, i as int);
                }
                return false;
            }
            let b1 = s[i + 1];
            let b2 = s[i + 2];
            let b3 = s[i + 3];
            let cp: u32 = (((b0 & 0x07) as u32) << 18) | (((b1 & 0x3F) as u32) << 12) | (((b2
                & 0x3F) as u32) << 6) | ((b3 & 0x3F) as u32);
            if cp < 0x10000 || cp > 0x10FFFF {
                // Overlong four-byte encoding, or beyond the last scalar.
                proof {
                    lemma_invalid_here(s@, i as int);
                }
                return false;
            }
            width = 4;
            proof {
                assert(valid_first_scalar(rest));
            }
        } else {
            // A stray continuation byte, or a byte no encoding starts with.
            proof {
                lemma_invalid_here(s@, i as int);
            }
            return false;
        }
        proof {
            partial_valid_utf8_extend(s@, i as int);
            assert(vstd::utf8::length_of_first_scalar(rest) == width);
        }
        i = i + width;
    }
    proof {
        assert(s@.subrange(0, n as int) =~= s@);
    }
    true
}

/// Whether a byte has the continuation-byte bit pattern.
fn cont_byte(b: u8) -> (r: bool)
    ensures
        r == is_continuation_byte(b),
{
    0x80 <= b && b <= 0xBF
}

/// A valid prefix followed by an invalid first scalar makes the whole
/// sequence invalid.
proof fn lemma_invalid_here(s: Seq<u8>, i: int)
    requires
        0 <= i < s.len(),
        partial_valid_utf8(s, i),
        !valid_first_scalar(s.subrange(i, s.len() as int)),
    ensures
        !valid_utf8(s),
{
    assert(!valid_utf8(s.subrange(i, s.len() as int)));
    partial_valid_partial_invalid_utf8(s, i);
}

/// Split on single separators, with no collapsing: each separator ends one
/// token, so two adjacent separators hold an empty token between them, and
/// the empty sequence splits into one empty token.
pub open spec fn split_bytes(s: Seq<u8>, sep: u8) -> Seq<Seq<u8>>
    decreases s.len(),
{
    if s.len() == 0 {
        seq![Seq::<u8>::empty()]
    } else if s[0] == sep {
        seq![Seq::<u8>::empty()] + split_bytes(s.drop_first(), sep)
    } else {
        let rest = split_bytes(s.drop_first(), sep);
        seq![seq![s[0]] + rest[0]] + rest.drop_first()
    }
}

/// Splitting always yields at least one token.
pub proof fn lemma_split_len(s: Seq<u8>, sep: u8)
    ensures
        split_bytes(s, sep).len() >= 1,
    decreases s.len(),
{
    if s.len() == 0 {
    } else if s[0] == sep {
        lemma_split_len(s.drop_first(), sep);
    } else {
        lemma_split_len(s.drop_first(), sep);
    }
}

/// Joining tokens with single separators between them.
pub open spec fn join_bytes(toks: Seq<Seq<u8>>, sep: u8) -> Seq<u8>
    decreases toks.len(),
{
    if toks.len() == 0 {
        Seq::empty()
    } else if toks.len() == 1 {
        toks[0]
    } else {
        toks[0] + seq![sep] + join_bytes(toks.drop_first(), sep)
    }
}

/// Splitting loses nothing: joining the tokens with the separator gives the
/// input back. In particular the gap between two adjacent separators is kept
/// as an empty token rather than collapsed.
pub proof fn lemma_split_join(s: Seq<u8>, sep: u8)
    ensures
        join_bytes(split_bytes(s, sep), sep) == s,
    decreases s.len(),
{
    if s.len() == 0 {
    } else if s[0] == sep {
        lemma_split_join(s.drop_first(), sep);
        lemma_split_len(s.drop_first(), sep);
        let toks = seq![Seq::<u8>::empty()] + split_bytes(s.drop_first(), sep);
        assert(toks[0] =~= Seq::<u8>::empty());
        assert(toks.drop_first() =~~= split_bytes(s.drop_first(), sep));
        assert(toks.len() >= 2);
        assert(join_bytes(toks, sep) == toks[0] + seq![sep] + join_bytes(toks.drop_first(), sep));
        assert(Seq::<u8>::empty() + seq![sep] + s.drop_first() =~= s);
    } else {
        lemma_split_join(s.drop_first(), sep);
        lemma_split_len(s.drop_first(), sep);
        let rest = split_bytes(s.drop_first(), sep);
        let toks = seq![seq![s[0]] + rest[0]] + rest.drop_first();
        assert(toks[0] =~= seq![s[0]] + rest[0]);
        assert(toks.drop_first() =~~= rest.drop_first());
        if rest.len() == 1 {
            assert(toks.len() == 1);
            assert(join_bytes(toks, sep) == toks[0]);
            assert(join_bytes(rest, sep) == rest[0]);
            assert(seq![s[0]] + rest[0] =~= s);
        } else {
            assert(toks.len() >= 2);
            assert(join_bytes(toks, sep) == toks[0] + seq![sep] + join_bytes(
                toks.drop_first(),
                sep,
            ));
            assert(join_bytes(rest, sep) == rest[0] + seq![sep] + join_bytes(
                rest.drop_first(),
                sep,
            ));
            assert((seq![s[0]] + rest[0]) + seq![sep] + join_bytes(rest.drop_first(), sep) =~= seq![
                s[0],
            ] + (rest[0] + seq![sep] + join_bytes(rest.drop_first(), sep)));
            assert(seq![s[0]] + s.drop_first() =~= s);
        }
    }
}

/// The views of a list of byte buffers.
pub open spec fn views_of(toks: Seq<Vec<u8>>) -> Seq<Seq<u8>> {
    toks.map_values(|t: Vec<u8>| t@)
}

/// Split a line on the separator, with no collapsing.
pub fn split_bytes_exec(s: &[u8], sep: u8) -> (toks: Vec<Vec<u8>>)
    ensures
        views_of(toks@) == split_bytes(s@, sep),
        toks@.len() >= 1,
{
    let mut toks: Vec<Vec<u8>> = Vec::new();
    let mut cur: Vec<u8> = Vec::new();
    let mut i: usize = 0;
    proof {
        lemma_split_len(s@, sep);
        assert(s@.skip(0) =~= s@);
        let r = split_bytes(s@, sep);
        assert(views_of(toks@) + seq![cur@ + r[0]] + r.drop_first() =~~= r);
    }
    while i < s.len()
        invariant
            i <= s@.len(),
            ({
                let r = split_bytes(s@.skip(i as int), sep);
                split_bytes(s@, sep) == views_of(toks@) + seq![cur@ + r[0]] + r.drop_first()
            }),
        decreases s@.len() - i,
    {
        let ghost r = split_bytes(s@.skip(i as int), sep);
        proof {
            assert(s@.skip(i as int).drop_first() =~= s@.skip(i + 1));
            lemma_split_len(s@.skip(i + 1), sep);
        }
        let ghost r2 = split_bytes(s@.skip(i + 1), sep);
        let b = s[i];
        let ghost toks_pre = toks@;
        let ghost cur_pre = cur@;
        if b == sep {
            let done = cur;
            cur = Vec::new();
            toks.push(done);
            proof {
                assert(r == seq![Seq::<u8>::empty()] + r2);
                assert(r[0] =~= Seq::<u8>::empty());
                assert(r.drop_first() =~~= r2);
                assert(views_of(toks@) =~~= views_of(toks_pre).push(cur_pre));
                assert(views_of(toks_pre) + seq![cur_pre + r[0]] + r.drop_first() =~~= views_of(
                    toks@,
                ) + seq![cur@ + r2[0]] + r2.drop_first()) by {
                    assert(cur_pre + r[0] =~= cur_pre);
                    assert(cur@ + r2[0] =~= r2[0]);
                }
            }
        } else {
            cur.push(b);
            proof {
                assert(r == seq![seq![b] + r2[0]] + r2.drop_first());
                assert(r[0] =~= seq![b] + r2[0]);
                assert(r.drop_first() =~~= r2.drop_first());
                assert(views_of(toks_pre) + seq![cur_pre + r[0]] + r.drop_first() =~~= views_of(
                    toks@,
                ) + seq![cur@ + r2[0]] + r2.drop_first()) by {
                    assert(cur_pre + (seq![b] + r2[0]) =~= cur@ + r2[0]);
                    assert(views_of(toks@) =~~= views_of(toks_pre));
                }
            }
        }
        i = i + 1;
    }
    proof {
        let r = split_bytes(s@.skip(i as int), sep);
        assert(s@.skip(i as int) =~= Seq::<u8>::empty());
        assert(r == seq![Seq::<u8>::empty()]);
        assert(cur@ + r[0] =~= cur@);
        assert(r.drop_first() =~~= Seq::<Seq<u8>>::empty());
        assert(split_bytes(s@, sep) =~~= views_of(toks@).push(cur@));
    }
    let ghost toks_pre = toks@;
    let ghost cur_pre = cur@;
    toks.push(cur);
    proof {
        assert(views_of(toks@) =~~= views_of(toks_pre).push(cur_pre));
    }
    toks
}

/// What `echo` emits before the closing line break: each argument followed
/// by one space.
pub open spec fn echo_args(args: Seq<Seq<u8>>) -> Seq<u8>
    decreases args.len(),
{
    if args.len() == 0 {
        Seq::empty()
    } else {
        args[0] + seq![32u8] + echo_args(args.drop_first())
    }
}

/// Everything `echo` emits: each argument followed by one space, then a
/// line break.
pub open spec fn echo_output(args: Seq<Seq<u8>>) -> Seq<u8> {
    echo_args(args) + crlf_spec()
}

/// Extending the argument list appends one more argument and space.
proof fn lemma_echo_args_snoc(args: Seq<Seq<u8>>, x: Seq<u8>)
    ensures
        echo_args(args.push(x)) == echo_args(args) + (x + seq![32u8]),
    decreases args.len(),
{
    if args.len() == 0 {
        let p = args.push(x);
        assert(p.drop_first() =~~= Seq::<Seq<u8>>::empty());
        assert(echo_args(p.drop_first()) == Seq::<u8>::empty());
        assert(echo_args(p) == p[0] + seq![32u8] + echo_args(p.drop_first()));
        assert(x + seq![32u8] + Seq::<u8>::empty() =~= Seq::<u8>::empty() + (x + seq![32u8]));
    } else {
        assert(args.push(x).drop_first() =~= args.drop_first().push(x));
        lemma_echo_args_snoc(args.drop_first(), x);
        assert(args.push(x)[0] =~= args[0]);
        assert(args[0] + seq![32u8] + (echo_args(args.drop_first()) + (x + seq![32u8])) =~= (
        args[0] + seq![32u8] + echo_args(args.drop_first())) + (x + seq![32u8]));
    }
}

/// The reply the shell sends for one line of text: a blank line for an empty
/// line; the output of the named built-in when the first token names one;
/// otherwise the unrecognized-command diagnostic quoting the name.
pub open spec fn line_response(line: Seq<u8>) -> Seq<u8> {
    if line.len() == 0 {
        crlf_spec()
    } else {
        let toks = split_bytes(line, 32);
        let name = toks[0];
        if name == echo_name_spec() {
            echo_output(toks.drop_first())
        } else if name == exe_name_spec() {
            Seq::empty()
        } else {
            unrecognized_prefix_spec() + name + unrecognized_suffix_spec()
        }
    }
}

/// Dispatch determinism for unknown commands: any line whose first token
/// names no entry of the command table draws the unrecognized-command
/// diagnostic quoting exactly that token, and never asks the shell to stop —
/// which [`parse_and_execute`] separately guarantees for every line.
pub proof fn lemma_unknown_command(line: Seq<u8>)
    requires
        line.len() > 0,
        split_bytes(line, 32)[0] != echo_name_spec(),
        split_bytes(line, 32)[0] != exe_name_spec(),
    ensures
        line_response(line) == unrecognized_prefix_spec() + split_bytes(line, 32)[0]
            + unrecognized_suffix_spec(),
{
}

/// `echo`: emit each argument followed by one space, then a line break. The
/// shell always continues.
pub fn echo(bus: &mut Bus, args: &Vec<Vec<u8>>) -> (exit: bool)
    requires
        old(bus).base != 0,
    ensures
        exit == false,
        final(bus).tx@ == old(bus).tx@ + echo_output(views_of(args@)),
        final(bus).writes@ == old(bus).writes@ + dr_writes(echo_output(views_of(args@))),
        final(bus).rx@ == old(bus).rx@,
        final(bus).base == old(bus).base,
        final(bus).ticks@ == old(bus).ticks@,
        cfg_eq(*old(bus), *final(bus)),
{
    let ghost b0 = *bus;
    let mut i: usize = 0;
    proof {
        assert(views_of(args@).take(0) =~= Seq::<Seq<u8>>::empty());
        assert(b0.tx@ + echo_args(Seq::<Seq<u8>>::empty()) =~= b0.tx@);
        assert(dr_writes(echo_args(Seq::<Seq<u8>>::empty())) =~= Seq::<(usize, u32)>::empty());
        assert(b0.writes@ + dr_writes(echo_args(Seq::<Seq<u8>>::empty())) =~= b0.writes@);
    }
    while i < args.len()
        invariant
            i <= args@.len(),
            bus.base == b0.base,
            bus.base != 0,
            bus.rx@ == b0.rx@,
            bus.ticks@ == b0.ticks@,
            cfg_eq(*bus, b0),
            bus.tx@ == b0.tx@ + echo_args(views_of(args@).take(i as int)),
            bus.writes@ == b0.writes@ + dr_writes(echo_args(views_of(args@).take(i as int))),
        decreases args@.len() - i,
    {
        let ghost pre = echo_args(views_of(args@).take(i as int));
        uart::puts(bus, args[i].as_slice());
        uart::putb(bus, 32);
        proof {
            lemma_echo_args_snoc(views_of(args@).take(i as int), args@[i as int]@);
            assert(views_of(args@).take(i as int).push(args@[i as int]@) =~= views_of(
                args@,
            ).take(i + 1));
            assert(bus.tx@ =~= b0.tx@ + echo_args(views_of(args@).take(i + 1)));
            assert(bus.writes@ =~= b0.writes@ + dr_writes(echo_args(views_of(args@).take(i + 1))))
                by {
                lemma_dr_writes_concat(pre, args@[i as int]@ + seq![32u8]);
                lemma_dr_writes_concat(args@[i as int]@, seq![32u8]);
                assert(dr_writes(seq![32u8]) =~= seq![(UART0_DR, 32u32)]);
                assert(dr_writes(args@[i as int]@) + seq![(UART0_DR, 32u32)] =~= dr_writes(
                    args@[i as int]@ + seq![32u8],
                )) by {
                    lemma_dr_writes_concat(args@[i as int]@, seq![32u8]);
                }
            }
        }
        i = i + 1;
    }
    uart::putb(bus, 13);
    uart::putb(bus, 10);
    proof {
        assert(views_of(args@).take(args@.len() as int) =~= views_of(args@));
        assert(bus.tx@ =~= b0.tx@ + echo_output(views_of(args@)));
        assert(bus.writes@ =~= b0.writes@ + dr_writes(echo_output(views_of(args@)))) by {
            lemma_dr_writes_concat(echo_args(views_of(args@)), crlf_spec());
            assert(dr_writes(crlf_spec()) =~= seq![(UART0_DR, 13u32), (UART0_DR, 10u32)]);
        }
    }
    false
}

/// `exe`: accepts its arguments and has no observable effect — a
/// placeholder. The shell always continues.
pub fn exe(_args: &Vec<Vec<u8>>) -> (exit: bool)
    ensures
        exit == false,
{
    false
}

/// Tokenize one line of text on single spaces and dispatch the first token
/// against the command table, scanned in declared order; the remaining
/// tokens are the arguments. Returns whether the matched command asks the
/// shell loop to stop; no built-in ever does, so the result is always false.
pub fn parse_and_execute(bus: &mut Bus, cmd: &[u8]) -> (exit: bool)
    requires
        old(bus).base != 0,
    ensures
        exit == false,
        final(bus).tx@ == old(bus).tx@ + line_response(cmd@),
        final(bus).writes@ == old(bus).writes@ + dr_writes(line_response(cmd@)),
        final(bus).rx@ == old(bus).rx@,
        final(bus).base == old(bus).base,
        final(bus).ticks@ == old(bus).ticks@,
        cfg_eq(*old(bus), *final(bus)),
{
    if cmd.len() == 0 {
        uart::putb(bus, 13);
        uart::putb(bus, 10);
        proof {
            assert(final(bus).tx@ =~= old(bus).tx@ + crlf_spec());
            assert(final(bus).writes@ =~= old(bus).writes@ + dr_writes(crlf_spec()));
        }
        return false;
    }
    let mut toks = split_bytes_exec(cmd, 32);
    let ghost stoks = split_bytes(cmd@, 32);
    let name = toks.remove(0);
    proof {
        assert(name@ == stoks[0]);
        assert(toks@.map_values(|t: Vec<u8>| t@) =~= stoks.drop_first());
    }
    let en = echo_name();
    let xn = exe_name();
    if bytes_eq(name.as_slice(), en.as_slice()) {
        return echo(bus, &toks);
    }
    if bytes_eq(name.as_slice(), xn.as_slice()) {
        return exe(&toks);
    }
    let pre = unrecognized_prefix();
    let suf = unrecognized_suffix();
    uart::puts(bus, pre.as_slice());
    uart::puts(bus, name.as_slice());
    uart::puts(bus, suf.as_slice());
    proof {
        assert(final(bus).tx@ =~= old(bus).tx@ + (unrecognized_prefix_spec() + name@
            + unrecognized_suffix_spec()));
        assert(final(bus).writes@ =~= old(bus).writes@ + dr_writes(
            unrecognized_prefix_spec() + name@ + unrecognized_suffix_spec(),
        )) by {
            lemma_dr_writes_concat(unrecognized_prefix_spec(), name@);
            lemma_dr_writes_concat(unrecognized_prefix_spec() + name@, unrecognized_suffix_spec());
            assert((unrecognized_prefix_spec() + name@) + unrecognized_suffix_spec()
                =~= unrecognized_prefix_spec() + name@ + unrecognized_suffix_spec());
        }
    }
    false
}

/// Whether the line outcome exists depends only on how much of the buffer is
/// filled, never on which bytes fill it.
proof fn lemma_outcome_some_same_len(input: Seq<u8>, a: Seq<u8>, b: Seq<u8>, cap: nat)
    requires
        a.len() == b.len(),
    ensures
        (uart::line_outcome(input, a, cap) is Some) == (uart::line_outcome(input, b, cap)
            is Some),
    decreases input.len(),
{
    if a.len() >= cap {
    } else if input.len() == 0 {
    } else {
        let x = input[0];
        if x == 10 || x == 13 {
        } else if x == 8 {
            let a2 = if a.len() > 0 {
                a.drop_last()
            } else {
                a
            };
            let b2 = if b.len() > 0 {
                b.drop_last()
            } else {
                b
            };
            lemma_outcome_some_same_len(input.drop_first(), a2, b2, cap);
        } else {
            lemma_outcome_some_same_len(input.drop_first(), a.push(x), b.push(x), cap);
        }
    }
}

/// How much input one line can consume: never more than there is, and, while
/// the buffer has room, at least the one byte that was read.
pub proof fn lemma_outcome_used_range(input: Seq<u8>, acc: Seq<u8>, cap: nat)
    ensures
        uart::line_outcome(input, acc, cap) matches Some(o) ==> 0 <= o.used <= input.len() && (
        acc.len() < cap ==> o.used >= 1),
    decreases input.len(),
{
    if acc.len() >= cap {
    } else if input.len() == 0 {
    } else {
        let x = input[0];
        if x == 10 || x == 13 {
        } else if x == 8 {
            let erased = if acc.len() > 0 {
                acc.drop_last()
            } else {
                acc
            };
            lemma_outcome_used_range(input.drop_first(), erased, cap);
        } else {
            lemma_outcome_used_range(input.drop_first(), acc.push(x), cap);
        }
    }
}

/// Decide whether the pending input holds one full line for a buffer of
/// `cap` bytes — a terminator, or enough plain bytes to fill it — that is,
/// whether [`uart::gets`] would come back rather than block for more input.
pub fn line_pending(input: &Vec<u8>, cap: usize) -> (r: bool)
    ensures
        r == (uart::line_outcome(input@, Seq::empty(), cap as nat) is Some),
{
    let mut i: usize = 0;
    let mut len: usize = 0;
    proof {
        assert(input@.skip(0) =~= input@);
        assert(Seq::new(0nat, |j: int| 0u8) =~= Seq::<u8>::empty());
    }
    loop
        invariant
            i <= input@.len(),
            len <= cap,
            (uart::line_outcome(input@, Seq::empty(), cap as nat) is Some) == (uart::line_outcome(
                input@.skip(i as int),
                Seq::new(len as nat, |j: int| 0u8),
                cap as nat,
            ) is Some),
        decreases input@.len() - i,
    {
        let ghost acc = Seq::new(len as nat, |j: int| 0u8);
        if len >= cap {
            return true;
        }
        if i >= input.len() {
            proof {
                assert(input@.skip(i as int) =~= Seq::<u8>::empty());
            }
            return false;
        }
        let b = input[i];
        proof {
            assert(input@.skip(i as int).drop_first() =~= input@.skip(i + 1));
        }
        i = i + 1;
        if b == 10 || b == 13 {
            return true;
        }
        if b == 8 {
            let ghost erased = if acc.len() > 0 {
                acc.drop_last()
            } else {
                acc
            };
            if len > 0 {
                len = len - 1;
            }
            proof {
                lemma_outcome_some_same_len(
                    input@.skip(i as int),
                    erased,
                    Seq::new(len as nat, |j: int| 0u8),
                    cap as nat,
                );
            }
        } else {
            len = len + 1;
            proof {
                lemma_outcome_some_same_len(
                    input@.skip(i as int),
                    acc.push(b),
                    Seq::new(len as nat, |j: int| 0u8),
                    cap as nat,
                );
            }
        }
    }
}

/// The reply to one raw line: the encoding diagnostic when the bytes are not
/// valid UTF-8, otherwise the dispatch response for the text.
pub open spec fn shell_reply(line: Seq<u8>) -> Seq<u8> {
    if valid_utf8(line) {
        line_response(line)
    } else {
        invalid_utf8_msg_spec()
    }
}

/// The whole dialogue the shell holds over the pending input: how much input
/// it consumes, and everything it emits — for each full line the prompt, the
/// line's echo, and the reply, and at the end the prompt at which it waits
/// for a line that never arrives.
pub open spec fn session(input: Seq<u8>) -> (int, Seq<u8>)
    decreases input.len(),
    via session_decreases
{
    match uart::line_outcome(input, Seq::empty(), MAX_COMMAND_LEN as nat) {
        Some(o) => {
            let rest = session(input.skip(o.used));
            (o.used + rest.0, prompt_spec() + o.echo + shell_reply(o.line) + rest.1)
        },
        None => (0int, prompt_spec()),
    }
}

#[via_fn]
proof fn session_decreases(input: Seq<u8>) {
    lemma_outcome_used_range(input, Seq::empty(), MAX_COMMAND_LEN as nat);
}

/// A zeroed line buffer of the given capacity.
fn zeroed(cap: usize) -> (v: Vec<u8>)
    ensures
        v@.len() == cap,
{
    let mut v: Vec<u8> = Vec::new();
    while v.len() < cap
        invariant
            v@.len() <= cap,
        decreases cap - v@.len(),
    {
        v.push(0);
    }
    v
}

/// Run the shell over the machine's pending input: emit the prompt, read one
/// line, validate it, dispatch it, and repeat. The model returns at the
/// prompt where real hardware would block forever awaiting an operator; no
/// built-in command asks the loop to stop, so nothing else ends it.
#[verifier::loop_isolation(false)]
pub fn run_shell(bus: &mut Bus)
    requires
        old(bus).base != 0,
    ensures
        final(bus).tx@ == old(bus).tx@ + session(old(bus).rx@).1,
        final(bus).writes@ == old(bus).writes@ + dr_writes(session(old(bus).rx@).1),
        final(bus).rx@ == old(bus).rx@.skip(session(old(bus).rx@).0),
        final(bus).base == old(bus).base,
        final(bus).ticks@ == old(bus).ticks@,
        cfg_eq(*old(bus), *final(bus)),
{
    let ghost b0 = *bus;
    let ghost input0 = bus.rx@;
    let ghost total = session(input0);
    let ghost mut used: int = 0;
    let ghost mut emitted: Seq<u8> = Seq::empty();
    proof {
        assert(input0.skip(0) =~= input0);
        assert(b0.tx@ + Seq::<u8>::empty() =~= b0.tx@);
        assert(dr_writes(Seq::<u8>::empty()) =~= Seq::<(usize, u32)>::empty());
        assert(b0.writes@ + dr_writes(Seq::<u8>::empty()) =~= b0.writes@);
        assert(Seq::<u8>::empty() + session(input0).1 =~= session(input0).1);
    }
    loop
        invariant
            bus.base == b0.base,
            bus.base != 0,
            0 <= used <= input0.len(),
            bus.rx@ == input0.skip(used),
            bus.ticks@ == b0.ticks@,
            cfg_eq(*bus, b0),
            bus.tx@ == b0.tx@ + emitted,
            bus.writes@ == b0.writes@ + dr_writes(emitted),
            total.0 == used + session(bus.rx@).0,
            total.1 == emitted + session(bus.rx@).1,
        decreases bus.rx@.len(),
    {
        let ghost rx_head = bus.rx@;
        let ghost emitted_head = emitted;
        let p = prompt_msg();
        uart::puts(bus, p.as_slice());
        if !line_pending(&bus.rx, MAX_COMMAND_LEN) {
            proof {
                assert(session(rx_head) == (0int, prompt_spec()));
                emitted = emitted_head + prompt_spec();
                assert(bus.tx@ =~= b0.tx@ + total.1);
                assert(bus.writes@ =~= b0.writes@ + dr_writes(total.1)) by {
                    lemma_dr_writes_concat(emitted_head, prompt_spec());
                }
            }
            return;
        }
        let mut buf: Vec<u8> = zeroed(MAX_COMMAND_LEN);
        let ghost o = uart::line_outcome(rx_head, Seq::empty(), MAX_COMMAND_LEN as nat).unwrap();
        let n = uart::gets(bus, &mut buf);
        buf.truncate(n);
        proof {
            assert(buf@ =~= o.line);
            lemma_outcome_used_range(rx_head, Seq::empty(), MAX_COMMAND_LEN as nat);
        }
        if is_valid_utf8(buf.as_slice()) {
            let exit = parse_and_execute(bus, buf.as_slice());
            if exit {
                return;
            }
        } else {
            let msg = invalid_utf8_msg();
            uart::puts(bus, msg.as_slice());
        }
        proof {
            let reply = shell_reply(o.line);
            let rest = session(bus.rx@);
            used = used + o.used;
            emitted = emitted_head + (prompt_spec() + o.echo + reply);
            assert(bus.rx@ =~= input0.skip(used));
            assert(bus.tx@ =~= b0.tx@ + emitted);
            assert(bus.writes@ =~= b0.writes@ + dr_writes(emitted)) by {
                lemma_dr_writes_concat(emitted_head, prompt_spec() + o.echo + reply);
                lemma_dr_writes_concat(prompt_spec() + o.echo, reply);
                lemma_dr_writes_concat(prompt_spec(), o.echo);
                assert((prompt_spec() + o.echo) + reply =~= prompt_spec() + o.echo + reply);
            }
            assert(session(rx_head).0 == o.used + rest.0);
            assert(session(rx_head).1 == prompt_spec() + o.echo + reply + rest.1);
            assert(total.1 =~= emitted + rest.1) by {
                assert(emitted_head + (prompt_spec() + o.echo + reply + rest.1) =~= (emitted_head
                    + (prompt_spec() + o.echo + reply)) + rest.1);
            }
        }
    }
}

} // verus!
