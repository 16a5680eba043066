//! The line protocol between client and server. A request is a count line
//! `*N\r\n` followed, for each of its `N` arguments, by a length line
//! `$L\r\n` (`L` the argument's length in bytes) and the argument itself
//! ended by `\r\n`. Replies are `+OK\r\n`, `$-1\r\n` for a missing value,
//! `$L\r\n` then the value ended by `\r\n`, or `-ERR: ` and a message.
use vstd::prelude::*;
use vstd::utf8::{encode_utf8, is_ascii_chars, is_char_boundary};

use crate::decimal::push_char;

use crate::decimal::{
    all_digits, byte_digit, dec_bytes, digits_value, lemma_dec_value, lemma_parse_dec, parse_i32, parse_i32_spec,
    push_dec_bytes,
};

verus! {

/// The line end: carriage return, line feed.
pub open spec fn crlf() -> Seq<u8> {
    seq![13u8, 10u8]
}

/// The count line of a request with `n` arguments.
pub open spec fn count_line(n: nat) -> Seq<u8> {
    seq![42u8] + dec_bytes(n) + crlf()
}

/// The length line announcing the argument `arg`.
pub open spec fn len_line(arg: Seq<u8>) -> Seq<u8> {
    seq![36u8] + dec_bytes(arg.len()) + crlf()
}

/// The lines that carry the arguments `args`.
pub open spec fn arg_lines(args: Seq<Seq<u8>>) -> Seq<Seq<u8>>
    decreases args.len(),
{
    if args.len() == 0 {
        Seq::empty()
    } else {
        arg_lines(args.drop_last()).push(len_line(args.last())).push(args.last() + crlf())
    }
}

/// The lines of the request with arguments `args`.
pub open spec fn request_lines(args: Seq<Seq<u8>>) -> Seq<Seq<u8>> {
    seq![count_line(args.len())] + arg_lines(args)
}

/// The bytes that carry the arguments `args`.
pub open spec fn args_text(args: Seq<Seq<u8>>) -> Seq<u8>
    decreases args.len(),
{
    if args.len() == 0 {
        Seq::empty()
    } else {
        args_text(args.drop_last()) + len_line(args.last()) + args.last() + crlf()
    }
}

/// The bytes of the request with arguments `args`.
pub open spec fn request(args: Seq<Seq<u8>>) -> Seq<u8> {
    count_line(args.len()) + args_text(args)
}

/// The UTF-8 bytes of each string.
pub open spec fn strings_bytes(ss: Seq<Seq<char>>) -> Seq<Seq<u8>> {
    ss.map_values(|s: Seq<char>| encode_utf8(s))
}

/// The number in a count or length line, as the server reads it: the bytes
/// between the first one and the last two, read as an `i32`.
pub open spec fn header_value(line: Seq<u8>) -> Option<int> {
    if line.len() >= 3 {
        parse_i32_spec(line.subrange(1, line.len() - 2))
    } else {
        None
    }
}

/// An argument line that the length line announced as `n` bytes: `n` bytes
/// and then `\r\n`.
pub open spec fn arg_line_ok(line: Seq<u8>, n: int) -> bool {
    &&& line.len() >= 2
    &&& line[line.len() - 1] == 10
    &&& line[line.len() - 2] == 13
    &&& line.len() - 2 == n
}

/// The number of arguments that a count line announces (none for a
/// negative count).
pub open spec fn announced(n: int) -> nat {
    if n < 0 {
        0
    } else {
        n as nat
    }
}

/// The arguments that request lines carry, when they are well formed: a
/// count line, then for each announced argument a length line and an
/// argument line of that length.
pub open spec fn parse_request_spec(lines: Seq<Seq<u8>>) -> Option<Seq<Seq<u8>>> {
    if lines.len() == 0 {
        None
    } else {
        match header_value(lines[0]) {
            None => None,
            Some(n) => {
                let count = announced(n);
                if lines.len() == 1 + 2 * count && forall|i: int|
                    0 <= i < count ==> {
                        &&& #[trigger] header_value(lines[1 + 2 * i]) is Some
                        &&& arg_line_ok(lines[2 + 2 * i], header_value(lines[1 + 2 * i]).unwrap())
                    } {
                    Some(
                        Seq::new(
                            count,
                            |i: int| lines[2 + 2 * i].subrange(0, lines[2 + 2 * i].len() - 2),
                        ),
                    )
                } else {
                    None
                }
            },
        }
    }
}

/// A request or reply that does not follow the protocol.
pub enum ProtocolError {
    Malformed,
}

/// The number in a count or length line, as the server reads it.
pub fn parse_header(line: &String) -> (v: Option<i32>)
    ensures
        match v {
            Some(x) => header_value(encode_utf8(line@)) == Some(x as int),
            None => header_value(encode_utf8(line@)) is None,
        },
{
    let b = line.as_str().as_bytes();
    let n = b.len();
    if n < 3 {
        return None;
    }
    parse_i32(&b[1..n - 2])
}

/// The number of arguments that the count line `line` announces: the server
/// reads twice as many lines after it.
pub fn request_arg_count(line: &String) -> (count: Option<usize>)
    ensures
        match count {
            Some(c) => header_value(encode_utf8(line@)) matches Some(n) && c == announced(n),
            None => header_value(encode_utf8(line@)) is None,
        },
{
    match parse_header(line) {
        None => None,
        Some(n) => {
            if n < 0 {
                Some(0)
            } else {
                Some(n as usize)
            }
        },
    }
}

/// The argument of an argument line announced as `n` bytes: the line without
/// its `\r\n`.
fn parse_arg_line(line: &String, n: i32) -> (arg: Option<String>)
    ensures
        match arg {
            Some(a) => arg_line_ok(encode_utf8(line@), n as int) && encode_utf8(a@) == encode_utf8(
                line@,
            ).subrange(0, encode_utf8(line@).len() - 2),
            None => !arg_line_ok(encode_utf8(line@), n as int),
        },
{
    let s = line.as_str();
    let b = s.as_bytes();
    let len = b.len();
    if len < 2 || b[len - 1] != 10 || b[len - 2] != 13 {
        return None;
    }
    if n < 0 || (len - 2) as u64 != n as u64 {
        return None;
    }
    proof {
        vstd::utf8::encode_utf8_valid_utf8(s@);
        vstd::utf8::is_char_boundary_iff_not_is_continuation_byte(encode_utf8(s@), (len - 2) as int);
    }
    let (head, _tail) = s.split_at(len - 2);
    Some(head.to_owned())
}

/// The arguments of a request read as lines (each with its `\r\n`), the first
/// line the count line; `Malformed` when the lines do not carry a request.
pub fn parse_request(lines: &Vec<String>) -> (args: Result<Vec<String>, ProtocolError>)
    ensures
        match args {
            Ok(a) => parse_request_spec(lines@.map_values(|s: String| encode_utf8(s@))) == Some(
                a@.map_values(|s: String| encode_utf8(s@)),
            ),
            Err(_) => parse_request_spec(lines@.map_values(|s: String| encode_utf8(s@))) is None,
        },
{
    let ghost lb = lines@.map_values(|s: String| encode_utf8(s@));
    if lines.len() == 0 {
        return Err(ProtocolError::Malformed);
    }
    assert(lb[0] == encode_utf8(lines@[0]@));
    let count = match request_arg_count(&lines[0]) {
        None => {
            return Err(ProtocolError::Malformed);
        },
        Some(c) => c,
    };
    if (lines.len() - 1) / 2 != count || (lines.len() - 1) % 2 != 0 {
        return Err(ProtocolError::Malformed);
    }
    let mut args: Vec<String> = Vec::new();
    let mut i: usize = 0;
    while i < count
        invariant
            lb == lines@.map_values(|s: String| encode_utf8(s@)),
            lines@.len() == 1 + 2 * count,
            header_value(lb[0]) matches Some(n) && count == announced(n),
            i <= count,
            args@.len() == i,
            forall|j: int|
                0 <= j < i ==> {
                    &&& #[trigger] header_value(lb[1 + 2 * j]) is Some
                    &&& arg_line_ok(lb[2 + 2 * j], header_value(lb[1 + 2 * j]).unwrap())
                    &&& encode_utf8(args@[j]@) == lb[2 + 2 * j].subrange(0, lb[2 + 2 * j].len() - 2)
                },
        decreases count - i,
    {
        assert(lb[1 + 2 * i] == encode_utf8(lines@[1 + 2 * i]@));
        assert(lb[2 + 2 * i] == encode_utf8(lines@[2 + 2 * i]@));
        let n = match parse_header(&lines[1 + 2 * i]) {
            None => {
                return Err(ProtocolError::Malformed);
            },
            Some(n) => n,
        };
        match parse_arg_line(&lines[2 + 2 * i], n) {
            None => {
                return Err(ProtocolError::Malformed);
            },
            Some(a) => {
                args.push(a);
            },
        }
        i = i + 1;
    }
    let ghost ab = args@.map_values(|s: String| encode_utf8(s@));
    assert forall|j: int| 0 <= j < count implies #[trigger] ab[j] == lb[2 + 2 * j].subrange(
        0,
        lb[2 + 2 * j].len() - 2,
    ) by {
        assert(header_value(lb[1 + 2 * j]) is Some);
    }
    assert(args@.map_values(|s: String| encode_utf8(s@)) =~= Seq::new(
        count as nat,
        |j: int| lb[2 + 2 * j].subrange(0, lb[2 + 2 * j].len() - 2),
    ));
    Ok(args)
}

/// The bytes of a request with arguments `args`.
pub fn encode_request(args: &Vec<Vec<u8>>) -> (req: Vec<u8>)
    ensures
        req@ == request(args@.map_values(|a: Vec<u8>| a@)),
{
    let ghost av = args@.map_values(|a: Vec<u8>| a@);
    let mut out: Vec<u8> = Vec::new();
    out.push(42);
    push_dec_bytes(&mut out, args.len());
    out.push(13);
    out.push(10);
    assert(out@ =~= count_line(av.len()) + args_text(av.take(0)));
    let mut i: usize = 0;
    while i < args.len()
        invariant
            av == args@.map_values(|a: Vec<u8>| a@),
            i <= args@.len(),
            out@ == count_line(av.len()) + args_text(av.take(i as int)),
        decreases args@.len() - i,
    {
        let ghost before = out@;
        out.push(36);
        push_dec_bytes(&mut out, args[i].len());
        out.push(13);
        out.push(10);
        out.extend_from_slice(args[i].as_slice());
        out.push(13);
        out.push(10);
        proof {
            let t = av.take(i + 1);
            assert(t.drop_last() =~= av.take(i as int));
            assert(t.last() == args@[i as int]@);
            assert(out@ =~= before + len_line(t.last()) + t.last() + crlf());
        }
        i = i + 1;
    }
    assert(av.take(args@.len() as int) =~= av);
    out
}

/// The bytes of the command name `SET`.
pub open spec fn set_name() -> Seq<u8> {
    seq![83u8, 69u8, 84u8]
}

/// The bytes of the command name `GET`.
pub open spec fn get_name() -> Seq<u8> {
    seq![71u8, 69u8, 84u8]
}

/// The bytes of the command name `RM`.
pub open spec fn rm_name() -> Seq<u8> {
    seq![82u8, 77u8]
}

/// The bytes of the command name `SHUTDOWN`.
pub open spec fn shutdown_name() -> Seq<u8> {
    seq![83u8, 72u8, 85u8, 84u8, 68u8, 79u8, 87u8, 78u8]
}

/// The request that sets `key` to `value`.
pub fn set_request(key: &String, value: &String) -> (req: Vec<u8>)
    ensures
        req@ == request(seq![set_name(), encode_utf8(key@), encode_utf8(value@)]),
{
    let args = vec![vec![83u8, 69u8, 84u8], key.as_str().as_bytes_vec(), value.as_str().as_bytes_vec()];
    assert(args@.map_values(|a: Vec<u8>| a@) =~= seq![
        set_name(),
        encode_utf8(key@),
        encode_utf8(value@),
    ]);
    encode_request(&args)
}

/// The request that reads the value of `key`.
pub fn get_request(key: &String) -> (req: Vec<u8>)
    ensures
        req@ == request(seq![get_name(), encode_utf8(key@)]),
{
    let args = vec![vec![71u8, 69u8, 84u8], key.as_str().as_bytes_vec()];
    assert(args@.map_values(|a: Vec<u8>| a@) =~= seq![get_name(), encode_utf8(key@)]);
    encode_request(&args)
}

/// The request that removes `key`.
pub fn rm_request(key: &String) -> (req: Vec<u8>)
    ensures
        req@ == request(seq![rm_name(), encode_utf8(key@)]),
{
    let args = vec![vec![82u8, 77u8], key.as_str().as_bytes_vec()];
    assert(args@.map_values(|a: Vec<u8>| a@) =~= seq![rm_name(), encode_utf8(key@)]);
    encode_request(&args)
}

/// Every byte is ASCII.
pub open spec fn all_ascii(bs: Seq<u8>) -> bool {
    forall|i: int| 0 <= i < bs.len() ==> #[trigger] bs[i] < 128
}

/// The string whose characters are the ASCII bytes `bytes`.
pub fn ascii_string(bytes: &Vec<u8>) -> (s: String)
    requires
        all_ascii(bytes@),
    ensures
        encode_utf8(s@) == bytes@,
        s@.len() == bytes@.len(),
{
    let mut s = String::new();
    let mut i: usize = 0;
    while i < bytes.len()
        invariant
            all_ascii(bytes@),
            i <= bytes@.len(),
            s@.len() == i,
            is_ascii_chars(s@),
            forall|j: int| 0 <= j < i ==> #[trigger] s@[j] as u8 == bytes@[j],
        decreases bytes@.len() - i,
    {
        let b = bytes[i];
        let c = b as char;
        proof {
            lemma_ascii_char(b);
        }
        let ghost before = s@;
        push_char(&mut s, c);
        proof {
            assert forall|j: int| 0 <= j < s@.len() implies '\0' <= #[trigger] s@[j] && s@[j]
                <= '\u{7f}' by {
                if j < before.len() {
                    assert(s@[j] == before[j]);
                }
            }
            assert forall|j: int| 0 <= j < i + 1 implies #[trigger] s@[j] as u8 == bytes@[j] by {
                if j < before.len() {
                    assert(s@[j] == before[j]);
                }
            }
        }
        i = i + 1;
    }
    proof {
        vstd::utf8::is_ascii_chars_encode_utf8(s@);
        assert(encode_utf8(s@) =~= bytes@);
    }
    s
}

/// An ASCII byte read as a character is that character.
proof fn lemma_ascii_char(b: u8)
    requires
        b < 128,
    ensures
        '\0' <= (b as char) && (b as char) <= '\u{7f}',
        (b as char) as u8 == b,
{
}

/// The arguments of `lines` lie at their places: length line `2i`, then
/// argument line `2i + 1`.
pub proof fn lemma_arg_lines(args: Seq<Seq<u8>>)
    ensures
        arg_lines(args).len() == 2 * args.len(),
        forall|i: int|
            0 <= i < args.len() ==> #[trigger] arg_lines(args)[2 * i] == len_line(args[i])
                && arg_lines(args)[2 * i + 1] == args[i] + crlf(),
    decreases args.len(),
{
    if args.len() > 0 {
        let init = args.drop_last();
        lemma_arg_lines(init);
        assert forall|i: int|
            0 <= i < args.len() implies #[trigger] arg_lines(args)[2 * i] == len_line(args[i])
            && arg_lines(args)[2 * i + 1] == args[i] + crlf() by {
            if i < args.len() - 1 {
                assert(arg_lines(init)[2 * i] == len_line(init[i]));
            }
        }
    }
}

/// The number in a line made of one byte, the decimal bytes of `n`, and
/// `\r\n` is `n`.
proof fn lemma_header_of(first: u8, n: nat)
    requires
        n <= 0x7fff_ffff,
    ensures
        header_value(seq![first] + dec_bytes(n) + crlf()) == Some(n as int),
{
    let l = seq![first] + dec_bytes(n) + crlf();
    lemma_dec_value(n);
    assert(l.subrange(1, l.len() - 2) =~= dec_bytes(n));
    lemma_parse_dec(n);
}

/// Law: the server reads back from the lines of a request exactly its
/// arguments, when their number and each of their lengths fit an `i32`.
pub proof fn lemma_request_roundtrip(args: Seq<Seq<u8>>)
    requires
        args.len() <= 0x7fff_ffff,
        forall|i: int| 0 <= i < args.len() ==> #[trigger] args[i].len() <= 0x7fff_ffff,
    ensures
        parse_request_spec(request_lines(args)) == Some(args),
{
    let lines = request_lines(args);
    lemma_arg_lines(args);
    lemma_header_of(42u8, args.len());
    assert(lines[0] == count_line(args.len()));
    assert forall|i: int| 0 <= i < args.len() implies {
        &&& #[trigger] header_value(lines[1 + 2 * i]) is Some
        &&& arg_line_ok(lines[2 + 2 * i], header_value(lines[1 + 2 * i]).unwrap())
    } by {
        assert(lines[1 + 2 * i] == arg_lines(args)[2 * i]);
        assert(lines[2 + 2 * i] == arg_lines(args)[2 * i + 1]);
        lemma_header_of(36u8, args[i].len());
    }
    assert forall|i: int| 0 <= i < args.len() implies #[trigger] lines[2 + 2 * i].subrange(
        0,
        lines[2 + 2 * i].len() - 2,
    ) == args[i] by {
        assert(arg_lines(args)[2 * i] == len_line(args[i]));
        assert(lines[2 + 2 * i] == arg_lines(args)[2 * i + 1]);
        assert(lines[2 + 2 * i].subrange(0, lines[2 + 2 * i].len() - 2) =~= args[i]);
    }
    assert(Seq::new(
        args.len(),
        |i: int| lines[2 + 2 * i].subrange(0, lines[2 + 2 * i].len() - 2),
    ) =~= args);
}

/// Law: the lines of a request, one after another, are the request's bytes.
pub proof fn lemma_request_lines_concat(args: Seq<Seq<u8>>)
    ensures
        request_lines(args).flatten() == request(args),
{
    lemma_arg_lines_concat(args);
    let rl = request_lines(args);
    assert(rl.drop_first() =~= arg_lines(args));
    assert(rl.first() == count_line(args.len()));
}

proof fn lemma_arg_lines_concat(args: Seq<Seq<u8>>)
    ensures
        arg_lines(args).flatten() == args_text(args),
    decreases args.len(),
{
    if args.len() > 0 {
        let init = args.drop_last();
        lemma_arg_lines_concat(init);
        let a = arg_lines(init);
        a.lemma_flatten_and_flatten_alt_are_equivalent();
        a.push(len_line(args.last())).lemma_flatten_and_flatten_alt_are_equivalent();
        arg_lines(args).lemma_flatten_and_flatten_alt_are_equivalent();
        assert(a.push(len_line(args.last())).drop_last() =~= a);
        assert(arg_lines(args).drop_last() =~= a.push(len_line(args.last())));
        assert(arg_lines(args).flatten() =~= a.flatten() + len_line(args.last()) + (args.last()
            + crlf()));
    } else {
        assert(arg_lines(args) =~= Seq::<Seq<u8>>::empty());
    }
}

/// Whether two byte strings are equal.
pub fn bytes_eq(a: &[u8], b: &[u8]) -> (eq: bool)
    ensures
        eq == (a@ == b@),
{
    if a.len() != b.len() {
        return false;
    }
    let mut i: usize = 0;
    while i < a.len()
        invariant
            a@.len() == b@.len(),
            i <= a@.len(),
            forall|j: int| 0 <= j < i ==> a@[j] == b@[j],
        decreases a@.len() - i,
    {
        if a[i] != b[i] {
            return false;
        }
        i = i + 1;
    }
    assert(a@ =~= b@);
    true
}

/// A concatenation of ASCII bytes is ASCII.
pub proof fn lemma_ascii_concat(a: Seq<u8>, b: Seq<u8>)
    requires
        all_ascii(a),
        all_ascii(b),
    ensures
        all_ascii(a + b),
{
    assert forall|i: int| 0 <= i < (a + b).len() implies #[trigger] (a + b)[i] < 128 by {
        if i < a.len() {
            assert((a + b)[i] == a[i]);
        } else {
            assert((a + b)[i] == b[i - a.len()]);
        }
    }
}

proof fn lemma_dec_ascii(n: nat)
    ensures
        all_ascii(dec_bytes(n)),
{
    lemma_dec_value(n);
    assert forall|i: int| 0 <= i < dec_bytes(n).len() implies #[trigger] dec_bytes(n)[i] < 128 by {
        assert(byte_digit(dec_bytes(n)[i]) is Some);
    }
}

/// The request of ASCII arguments is ASCII.
pub proof fn lemma_request_ascii(args: Seq<Seq<u8>>)
    requires
        forall|i: int| 0 <= i < args.len() ==> all_ascii(#[trigger] args[i]),
    ensures
        all_ascii(request(args)),
{
    lemma_args_text_ascii(args);
    lemma_dec_ascii(args.len());
    lemma_ascii_concat(seq![42u8], dec_bytes(args.len()));
    lemma_ascii_concat(seq![42u8] + dec_bytes(args.len()), crlf());
    lemma_ascii_concat(count_line(args.len()), args_text(args));
}

proof fn lemma_args_text_ascii(args: Seq<Seq<u8>>)
    requires
        forall|i: int| 0 <= i < args.len() ==> all_ascii(#[trigger] args[i]),
    ensures
        all_ascii(args_text(args)),
    decreases args.len(),
{
    if args.len() > 0 {
        let init = args.drop_last();
        assert forall|i: int| 0 <= i < init.len() implies all_ascii(#[trigger] init[i]) by {
            assert(init[i] == args[i]);
        }
        lemma_args_text_ascii(init);
        let last = args.last();
        assert(all_ascii(last));
        lemma_dec_ascii(last.len());
        lemma_ascii_concat(seq![36u8], dec_bytes(last.len()));
        lemma_ascii_concat(seq![36u8] + dec_bytes(last.len()), crlf());
        lemma_ascii_concat(args_text(init), len_line(last));
        lemma_ascii_concat(args_text(init) + len_line(last), last);
        lemma_ascii_concat(args_text(init) + len_line(last) + last, crlf());
    } else {
        assert(args_text(args) =~= Seq::<u8>::empty());
    }
}

/// The request that sets the key `a` to the value `b`, as a string.
pub fn gen_cmd() -> (cmd: String)
    ensures
        encode_utf8(cmd@) == request(seq![set_name(), seq![97u8], seq![98u8]]),
{
    let mut key = String::new();
    push_char(&mut key, 'a');
    let mut value = String::new();
    push_char(&mut value, 'b');
    proof {
        assert(is_ascii_chars(key@));
        assert(is_ascii_chars(value@));
        vstd::utf8::is_ascii_chars_encode_utf8(key@);
        vstd::utf8::is_ascii_chars_encode_utf8(value@);
        assert(encode_utf8(key@) =~= seq![97u8]);
        assert(encode_utf8(value@) =~= seq![98u8]);
    }
    let req = set_request(&key, &value);
    proof {
        let args = seq![set_name(), seq![97u8], seq![98u8]];
        assert forall|i: int| 0 <= i < args.len() implies all_ascii(#[trigger] args[i]) by {}
        lemma_request_ascii(args);
    }
    ascii_string(&req)
}

/// The reply to a request that succeeded without a value.
pub open spec fn ok_reply_bytes() -> Seq<u8> {
    seq![43u8, 79u8, 75u8, 13u8, 10u8]
}

/// The reply to a read of a key that is not there.
pub open spec fn missing_reply_bytes() -> Seq<u8> {
    seq![36u8, 45u8, 49u8, 13u8, 10u8]
}

/// The reply to a read: the value's length line, then the value and `\r\n`;
/// or the missing reply.
pub open spec fn value_reply_bytes(value: Option<Seq<u8>>) -> Seq<u8> {
    match value {
        None => missing_reply_bytes(),
        Some(v) => len_line(v) + v + crlf(),
    }
}

/// The reply to a request that failed: `-ERR: ` and the message.
pub open spec fn error_reply_bytes(msg: Seq<u8>) -> Seq<u8> {
    seq![45u8, 69u8, 82u8, 82u8, 58u8, 32u8] + msg
}

/// The reply `+OK\r\n`.
pub fn ok_reply() -> (reply: Vec<u8>)
    ensures
        reply@ == ok_reply_bytes(),
{
    let reply = vec![43u8, 79u8, 75u8, 13u8, 10u8];
    assert(reply@ =~= ok_reply_bytes());
    reply
}

/// The reply to a read of a key whose value is `value` (`None` when the key
/// is not there).
pub fn value_reply(value: &Option<String>) -> (reply: Vec<u8>)
    ensures
        reply@ == value_reply_bytes(
            match value {
                Some(v) => Some(encode_utf8(v@)),
                None => None,
            },
        ),
{
    match value {
        None => {
            let reply = vec![36u8, 45u8, 49u8, 13u8, 10u8];
            assert(reply@ =~= missing_reply_bytes());
            reply
        },
        Some(v) => {
            let b = v.as_str().as_bytes();
            let mut reply: Vec<u8> = Vec::new();
            reply.push(36);
            push_dec_bytes(&mut reply, b.len());
            reply.push(13);
            reply.push(10);
            reply.extend_from_slice(b);
            reply.push(13);
            reply.push(10);
            assert(reply@ =~= len_line(encode_utf8(v@)) + encode_utf8(v@) + crlf());
            reply
        },
    }
}

/// The reply to a request that failed with the message `msg`.
pub fn error_reply(msg: &String) -> (reply: Vec<u8>)
    ensures
        reply@ == error_reply_bytes(encode_utf8(msg@)),
{
    let mut reply = vec![45u8, 69u8, 82u8, 82u8, 58u8, 32u8];
    reply.extend_from_slice(msg.as_str().as_bytes());
    assert(reply@ =~= error_reply_bytes(encode_utf8(msg@)));
    reply
}

/// Whether the reply line `line` is `+OK\r\n`.
pub fn is_ok_reply(line: &String) -> (ok: bool)
    ensures
        ok == (encode_utf8(line@) == ok_reply_bytes()),
{
    let expected = ok_reply();
    bytes_eq(line.as_str().as_bytes(), expected.as_slice())
}

/// The length that the first line of a read's reply announces: the line
/// starts with `$`, and its number is `-1` when the key is missing.
pub fn parse_value_header(line: &String) -> (len: Option<i32>)
    ensures
        match len {
            Some(n) => {
                let b = encode_utf8(line@);
                b.len() > 0 && b[0] == 36 && header_value(b) == Some(n as int)
            },
            None => {
                let b = encode_utf8(line@);
                !(b.len() > 0 && b[0] == 36 && header_value(b) is Some)
            },
        },
{
    let b = line.as_str().as_bytes();
    if b.len() == 0 || b[0] != 36 {
        return None;
    }
    parse_header(line)
}

/// The line without its last two bytes (the value line of a read's reply
/// without its `\r\n`); `None` when the line is shorter than two bytes or
/// does not split there.
pub fn strip_line_end(line: &String) -> (value: Option<String>)
    ensures
        match value {
            Some(v) => {
                let b = encode_utf8(line@);
                &&& b.len() >= 2
                &&& encode_utf8(v@) == b.subrange(0, b.len() - 2)
            },
            None => {
                let b = encode_utf8(line@);
                b.len() < 2 || !is_char_boundary(b, b.len() - 2)
            },
        },
{
    let s = line.as_str();
    let len = s.as_bytes().len();
    if len < 2 || !s.is_char_boundary(len - 2) {
        return None;
    }
    let (head, _tail) = s.split_at(len - 2);
    Some(head.to_owned())
}

/// Law: the client reads back from a read's reply the length of the value
/// (the value itself on the next line), or `-1` when the value is missing.
pub proof fn lemma_value_reply_roundtrip(v: Seq<u8>)
    requires
        v.len() <= 0x7fff_ffff,
    ensures
        value_reply_bytes(Some(v)) == len_line(v) + (v + crlf()),
        len_line(v)[0] == 36,
        header_value(len_line(v)) == Some(v.len() as int),
        (v + crlf()).subrange(0, v.len() as int) == v,
        missing_reply_bytes()[0] == 36,
        header_value(missing_reply_bytes()) == Some(-1),
{
    lemma_header_of(36u8, v.len());
    assert(value_reply_bytes(Some(v)) =~= len_line(v) + (v + crlf()));
    assert((v + crlf()).subrange(0, v.len() as int) =~= v);
    let m = missing_reply_bytes();
    let sub = m.subrange(1, m.len() - 2);
    assert(sub =~= seq![45u8, 49u8]);
    let ds = sub.drop_first();
    assert(ds =~= seq![49u8]);
    assert(ds.drop_last() =~= Seq::<u8>::empty());
    assert(byte_digit(49u8) == Some(1nat));
    assert(digits_value(ds) == digits_value(ds.drop_last()) * 10 + byte_digit(ds.last()).unwrap_or(0));
    assert(digits_value(ds) == 1);
    assert(all_digits(ds));
    assert(parse_i32_spec(sub) == Some(-1int));
}

/// A request as the server acts on it.
pub enum Request {
    SetValue(String, String),
    GetValue(String),
    RemoveKey(String),
    Shutdown,
}

/// Whether the arguments of a request make a command the server knows:
/// `SET key value`, `GET key`, `RM key`, or `SHUTDOWN` with any arguments.
pub open spec fn command_ok(args: Seq<Seq<u8>>) -> bool {
    &&& args.len() > 0
    &&& {
        ||| (args[0] == set_name() && args.len() == 3)
        ||| (args[0] == get_name() && args.len() == 2)
        ||| (args[0] == rm_name() && args.len() == 2)
        ||| args[0] == shutdown_name()
    }
}

/// The command that request arguments name.
pub fn parse_command(args: &Vec<String>) -> (req: Result<Request, ProtocolError>)
    ensures
        ({
            let ab = args@.map_values(|s: String| encode_utf8(s@));
            match req {
                Ok(Request::SetValue(k, v)) => ab.len() == 3 && ab[0] == set_name() && k@
                    == args@[1]@ && v@ == args@[2]@,
                Ok(Request::GetValue(k)) => ab.len() == 2 && ab[0] == get_name() && k@
                    == args@[1]@,
                Ok(Request::RemoveKey(k)) => ab.len() == 2 && ab[0] == rm_name() && k@
                    == args@[1]@,
                Ok(Request::Shutdown) => ab.len() > 0 && ab[0] == shutdown_name(),
                Err(_) => !command_ok(ab),
            }
        }),
{
    let ghost ab = args@.map_values(|s: String| encode_utf8(s@));
    if args.len() == 0 {
        return Err(ProtocolError::Malformed);
    }
    let name = args[0].as_str().as_bytes();
    assert(name@ == ab[0]);
    let set = vec![83u8, 69u8, 84u8];
    let get = vec![71u8, 69u8, 84u8];
    let rm = vec![82u8, 77u8];
    let shutdown = vec![83u8, 72u8, 85u8, 84u8, 68u8, 79u8, 87u8, 78u8];
    assert(set@ =~= set_name());
    assert(get@ =~= get_name());
    assert(rm@ =~= rm_name());
    assert(shutdown@ =~= shutdown_name());
    if bytes_eq(name, set.as_slice()) {
        if args.len() != 3 {
            return Err(ProtocolError::Malformed);
        }
        Ok(Request::SetValue(args[1].clone(), args[2].clone()))
    } else if bytes_eq(name, get.as_slice()) {
        if args.len() != 2 {
            return Err(ProtocolError::Malformed);
        }
        Ok(Request::GetValue(args[1].clone()))
    } else if bytes_eq(name, rm.as_slice()) {
        if args.len() != 2 {
            return Err(ProtocolError::Malformed);
        }
        Ok(Request::RemoveKey(args[1].clone()))
    } else if bytes_eq(name, shutdown.as_slice()) {
        Ok(Request::Shutdown)
    } else {
        Err(ProtocolError::Malformed)
    }
}

} // verus!
