//! The protocol's byte streams as a reader that reads one line at a time
//! sees them: each line runs up to and including a line feed.
use vstd::prelude::*;

use crate::decimal::{all_digits, byte_digit, dec_bytes, lemma_dec_value};
use crate::protocol::{
    arg_lines, count_line, crlf, header_value, lemma_arg_lines, lemma_request_lines_concat,
    lemma_request_roundtrip, lemma_value_reply_roundtrip, len_line, parse_request_spec, request,
    request_lines, value_reply_bytes,
};

verus! {

/// The length of the first line of `b`: up to and including its first line
/// feed, or all of `b` when it holds none.
pub open spec fn first_line_len(b: Seq<u8>) -> nat
    decreases b.len(),
{
    if b.len() == 0 {
        0
    } else if b[0] == 10 {
        1
    } else {
        1 + first_line_len(b.drop_first())
    }
}

/// A nonempty byte string has a first line of at least one byte and at most
/// all of it.
pub proof fn lemma_first_line_len_bounds(b: Seq<u8>)
    ensures
        b.len() > 0 ==> 1 <= first_line_len(b) <= b.len(),
    decreases b.len(),
{
    if b.len() > 0 && b[0] != 10 {
        let t = b.drop_first();
        lemma_first_line_len_bounds(t);
        if t.len() == 0 {
            assert(first_line_len(t) == 0);
        }
        assert(first_line_len(b) == 1 + first_line_len(t));
    }
}

/// The lines of `b`, in order, as a reader that reads one line at a time
/// (each up to and including a line feed) gets them.
pub open spec fn read_lines(b: Seq<u8>) -> Seq<Seq<u8>>
    decreases b.len(),
{
    if b.len() == 0 {
        Seq::empty()
    } else {
        let n = first_line_len(b);
        proof {
            lemma_first_line_len_bounds(b);
        }
        seq![b.subrange(0, n as int)] + read_lines(b.subrange(n as int, b.len() as int))
    }
}

/// `b` holds no line feed.
pub open spec fn no_line_feed(b: Seq<u8>) -> bool {
    forall|i: int| 0 <= i < b.len() ==> b[i] != 10
}

/// A line as the protocol writes it: it ends with carriage return and line
/// feed, and holds no other line feed.
pub open spec fn proper_line(l: Seq<u8>) -> bool {
    &&& l.len() >= 2
    &&& l[l.len() - 2] == 13
    &&& l[l.len() - 1] == 10
    &&& no_line_feed(l.subrange(0, l.len() - 1))
}

/// A reader's first line of `x + y` is `x` when `x` ends with its only line
/// feed.
proof fn lemma_first_line_of(x: Seq<u8>, y: Seq<u8>)
    requires
        x.len() >= 1,
        x[x.len() - 1] == 10,
        forall|i: int| 0 <= i < x.len() - 1 ==> x[i] != 10,
    ensures
        first_line_len(x + y) == x.len(),
    decreases x.len(),
{
    if x.len() > 1 {
        let t = x.drop_first();
        assert((x + y).drop_first() =~= t + y);
        assert forall|i: int| 0 <= i < t.len() - 1 implies t[i] != 10 by {
            assert(t[i] == x[i + 1]);
        }
        lemma_first_line_of(t, y);
    }
}

/// Lines that each end with their only line feed are read back, one after
/// another, from their concatenation.
pub proof fn lemma_read_lines_flatten(ls: Seq<Seq<u8>>)
    requires
        forall|j: int| 0 <= j < ls.len() ==> #[trigger] proper_line(ls[j]),
    ensures
        read_lines(ls.flatten()) == ls,
    decreases ls.len(),
{
    if ls.len() > 0 {
        let x = ls[0];
        let rest = ls.drop_first();
        assert(proper_line(x));
        assert forall|i: int| 0 <= i < x.len() - 1 implies x[i] != 10 by {
            assert(x.subrange(0, x.len() - 1)[i] == x[i]);
        }
        assert forall|j: int| 0 <= j < rest.len() implies #[trigger] proper_line(rest[j]) by {
            assert(rest[j] == ls[j + 1]);
        }
        lemma_read_lines_flatten(rest);
        let b = ls.flatten();
        assert(b == x + rest.flatten());
        lemma_first_line_of(x, rest.flatten());
        assert(b.subrange(0, x.len() as int) =~= x);
        assert(b.subrange(x.len() as int, b.len() as int) =~= rest.flatten());
        assert(read_lines(b) =~= seq![x] + rest);
        assert(seq![x] + rest =~= ls);
    } else {
        assert(ls.flatten() =~= Seq::<u8>::empty());
    }
}

/// A line made of one byte other than a line feed, the decimal bytes of
/// `n`, and carriage return and line feed is proper.
proof fn lemma_number_line_proper(first: u8, n: nat)
    requires
        first != 10,
    ensures
        proper_line(seq![first] + dec_bytes(n) + crlf()),
{
    lemma_dec_value(n);
    let d = dec_bytes(n);
    let l = seq![first] + d + crlf();
    assert forall|i: int| 0 <= i < l.len() - 1 implies #[trigger] l.subrange(0, l.len() - 1)[i]
        != 10 by {
        if 1 <= i < 1 + d.len() {
            assert(l[i] == d[i - 1]);
            assert(byte_digit(d[i - 1]) is Some);
        }
    }
}

/// A line made of bytes without a line feed, then carriage return and line
/// feed, is proper.
proof fn lemma_text_line_proper(a: Seq<u8>)
    requires
        no_line_feed(a),
    ensures
        proper_line(a + crlf()),
{
    let l = a + crlf();
    assert forall|i: int| 0 <= i < l.len() - 1 implies #[trigger] l.subrange(0, l.len() - 1)[i]
        != 10 by {
        if i < a.len() {
            assert(l[i] == a[i]);
        }
    }
}

/// Law: every line of a request whose arguments hold no line feed ends
/// with carriage return and line feed and holds no other line feed, so a
/// reader that reads the request's bytes one line at a time gets exactly
/// its lines: the count line, then a length line and an argument line for
/// each argument.
pub proof fn law_request_read_as_lines(args: Seq<Seq<u8>>)
    requires
        forall|i: int| 0 <= i < args.len() ==> no_line_feed(#[trigger] args[i]),
    ensures
        forall|j: int|
            0 <= j < request_lines(args).len() ==> #[trigger] proper_line(request_lines(args)[j]),
        read_lines(request(args)) == request_lines(args),
        request_lines(args).len() == 1 + 2 * args.len(),
        request_lines(args)[0] == seq![42u8] + dec_bytes(args.len()) + seq![13u8, 10u8],
        forall|i: int|
            0 <= i < args.len() ==> #[trigger] request_lines(args)[1 + 2 * i] == seq![36u8]
                + dec_bytes(args[i].len()) + seq![13u8, 10u8] && request_lines(args)[2 + 2 * i]
                == args[i] + seq![13u8, 10u8],
{
    let ls = request_lines(args);
    lemma_arg_lines(args);
    assert(ls[0] == count_line(args.len()));
    assert forall|i: int| 0 <= i < args.len() implies #[trigger] ls[1 + 2 * i] == seq![36u8]
        + dec_bytes(args[i].len()) + seq![13u8, 10u8] && ls[2 + 2 * i] == args[i] + seq![
        13u8,
        10u8,
    ] by {
        assert(ls[1 + 2 * i] == arg_lines(args)[2 * i]);
        assert(ls[2 + 2 * i] == arg_lines(args)[2 * i + 1]);
    }
    assert forall|j: int| 0 <= j < ls.len() implies #[trigger] proper_line(ls[j]) by {
        if j == 0 {
            lemma_number_line_proper(42u8, args.len());
        } else {
            let i = (j - 1) / 2;
            if j % 2 == 1 {
                assert(j == 1 + 2 * i);
                assert(ls[1 + 2 * i] == seq![36u8] + dec_bytes(args[i].len()) + seq![13u8, 10u8]);
                lemma_number_line_proper(36u8, args[i].len());
            } else {
                assert(j == 2 + 2 * i);
                assert(ls[1 + 2 * i] == seq![36u8] + dec_bytes(args[i].len()) + seq![13u8, 10u8]);
                assert(ls[2 + 2 * i] == args[i] + seq![13u8, 10u8]);
                lemma_text_line_proper(args[i]);
            }
        }
    }
    lemma_request_lines_concat(args);
    lemma_read_lines_flatten(ls);
}

/// Law: the server, reading a request one line at a time, gets back exactly
/// the arguments the client sent, when they hold no line feed and their
/// number and lengths fit an `i32`.
pub proof fn law_server_reads_back_request(args: Seq<Seq<u8>>)
    requires
        args.len() <= 0x7fff_ffff,
        forall|i: int|
            0 <= i < args.len() ==> no_line_feed(#[trigger] args[i]) && args[i].len()
                <= 0x7fff_ffff,
    ensures
        parse_request_spec(read_lines(request(args))) == Some(args),
{
    law_request_read_as_lines(args);
    lemma_request_roundtrip(args);
}

/// Law: a reader that reads the reply to a read of the value `v` (without
/// line feed) one line at a time gets two lines: `$`, the decimal length of
/// `v`, carriage return and line feed; then `v`, carriage return and line
/// feed. When the length fits an `i32`, the first line announces it.
pub proof fn law_value_reply_read_as_lines(v: Seq<u8>)
    requires
        no_line_feed(v),
    ensures
        read_lines(value_reply_bytes(Some(v))) == seq![
            seq![36u8] + dec_bytes(v.len()) + seq![13u8, 10u8],
            v + seq![13u8, 10u8],
        ],
        v.len() <= 0x7fff_ffff ==> header_value(read_lines(value_reply_bytes(Some(v)))[0])
            == Some(v.len() as int),
{
    let ls = seq![len_line(v), v + crlf()];
    lemma_number_line_proper(36u8, v.len());
    lemma_text_line_proper(v);
    assert forall|j: int| 0 <= j < ls.len() implies #[trigger] proper_line(ls[j]) by {}
    let r = ls.drop_first();
    assert(r =~= seq![v + crlf()]);
    assert(r.drop_first() =~= Seq::<Seq<u8>>::empty());
    assert(r.drop_first().flatten() =~= Seq::<u8>::empty());
    assert(r.flatten() == r[0] + r.drop_first().flatten());
    assert(r.flatten() =~= v + crlf());
    assert(ls.flatten() == ls[0] + r.flatten());
    assert(ls.flatten() =~= value_reply_bytes(Some(v)));
    lemma_read_lines_flatten(ls);
    if v.len() <= 0x7fff_ffff {
        lemma_value_reply_roundtrip(v);
    }
}

} // verus!
