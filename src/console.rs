use vstd::prelude::*;
use vstd::utf8::{
    char_u32_cast, decode_utf8, encode_scalar, encode_utf8, encode_utf8_decode_utf8,
    encode_utf8_valid_utf8, has_width_1_encoding, valid_utf8,
};

verus! {

/// The line terminator byte.
pub const NEWLINE: u8 = 10;

/// The carriage-return byte, dropped before a terminating newline.
pub const CARRIAGE_RETURN: u8 = 13;

/// The bytes written for one item: its UTF-8 encoding and a newline.
pub open spec fn line_bytes(s: Seq<char>) -> Seq<u8> {
    encode_utf8(s).push(NEWLINE)
}

/// The bytes written for a sequence of items, one line each, in order.
pub open spec fn encode_lines(items: Seq<Seq<char>>) -> Seq<u8>
    decreases items.len(),
{
    if items.len() == 0 {
        seq![]
    } else {
        encode_lines(items.drop_last()) + line_bytes(items.last())
    }
}

/// A raw line without its terminator: one trailing newline, then one trailing
/// carriage return, are removed.
pub open spec fn strip_terminator(raw: Seq<u8>) -> Seq<u8> {
    let a = if raw.len() > 0 && raw.last() == NEWLINE {
        raw.drop_last()
    } else {
        raw
    };
    if a.len() > 0 && a.last() == CARRIAGE_RETURN {
        a.drop_last()
    } else {
        a
    }
}

/// The item read from one raw line, or `None` when its text is not UTF-8.
pub open spec fn decode_line_spec(raw: Seq<u8>) -> Option<Seq<char>> {
    let a = strip_terminator(raw);
    if valid_utf8(a) {
        Some(decode_utf8(a))
    } else {
        None
    }
}

/// Splits `b` at newlines: the complete raw lines (each with its newline) and
/// the bytes after the last newline.
pub open spec fn frame(b: Seq<u8>) -> (Seq<Seq<u8>>, Seq<u8>)
    decreases b.len(),
{
    if b.len() == 0 {
        (seq![], seq![])
    } else {
        let (lines, cur) = frame(b.drop_last());
        let cur2 = cur.push(b.last());
        if b.last() == NEWLINE {
            (lines.push(cur2), seq![])
        } else {
            (lines, cur2)
        }
    }
}

/// The raw lines of an input: its complete lines, then the unterminated rest
/// when it is not empty.
pub open spec fn raw_lines(b: Seq<u8>) -> Seq<Seq<u8>> {
    let (lines, cur) = frame(b);
    if cur.len() > 0 {
        lines.push(cur)
    } else {
        lines
    }
}

/// The items read from a sequence of raw lines; those that are not UTF-8 are skipped.
pub open spec fn decode_lines(raws: Seq<Seq<u8>>) -> Seq<Seq<char>>
    decreases raws.len(),
{
    if raws.len() == 0 {
        seq![]
    } else {
        let rest = decode_lines(raws.drop_last());
        match decode_line_spec(raws.last()) {
            Some(s) => rest.push(s),
            None => rest,
        }
    }
}

/// The items that the console source yields for the whole input `b`.
pub open spec fn source_items(b: Seq<u8>) -> Seq<Seq<char>> {
    decode_lines(raw_lines(b))
}

/// Strings as character sequences.
pub open spec fn strings_view(v: Seq<String>) -> Seq<Seq<char>> {
    v.map_values(|s: String| s@)
}

/// Relies on std's `String::from_utf8`: it succeeds exactly when the bytes are
/// valid UTF-8, and the string then holds the characters they encode.
#[verifier::external_body]
fn string_from_utf8(bytes: Vec<u8>) -> (r: Option<String>)
    ensures
        r is Some <==> valid_utf8(bytes@),
        r is Some ==> r->0@ == decode_utf8(bytes@),
{
    String::from_utf8(bytes).ok()
}

/// The console source: newline-delimited text read from standard input.
#[derive(Debug, Clone, Copy, PartialEq, Eq, Structural)]
pub struct Stdin {}

/// The console sink: each item written to standard output, followed by a newline.
#[derive(Debug, Clone, Copy, PartialEq, Eq, Structural)]
pub struct Stdout {}

impl Stdin {
    /// The item carried by one raw line as read from the input (with or without
    /// its terminator); `None` when the line is not UTF-8 and is to be skipped.
    pub fn decode_line(&self, raw: Vec<u8>) -> (r: Option<String>)
        ensures
            r is Some <==> decode_line_spec(raw@) is Some,
            r is Some ==> r->0@ == decode_line_spec(raw@)->0,
    {
        let mut a = raw;
        let n = a.len();
        if n > 0 && a[n - 1] == NEWLINE {
            a.pop();
        }
        let m = a.len();
        if m > 0 && a[m - 1] == CARRIAGE_RETURN {
            a.pop();
        }
        proof {
            let b = if raw@.len() > 0 && raw@.last() == NEWLINE {
                raw@.drop_last()
            } else {
                raw@
            };
            assert(b =~= if n > 0 && raw@[n - 1] == NEWLINE {
                raw@.drop_last()
            } else {
                raw@
            });
            assert(a@ =~= strip_terminator(raw@));
        }
        string_from_utf8(a)
    }

    /// The items that the source yields for the whole input `text`, in order.
    pub fn decode_text(&self, text: &Vec<u8>) -> (r: Vec<String>)
        ensures
            strings_view(r@) == source_items(text@),
    {
        let mut out: Vec<String> = Vec::new();
        let mut cur: Vec<u8> = Vec::new();
        let n = text.len();
        let mut i: usize = 0;
        while i < n
            invariant
                n == text@.len(),
                i <= n,
                frame(text@.subrange(0, i as int)).1 == cur@,
                strings_view(out@) == decode_lines(frame(text@.subrange(0, i as int)).0),
            decreases n - i,
        {
            let c = text[i];
            cur.push(c);
            let ghost lines = frame(text@.subrange(0, i as int)).0;
            proof {
                assert(text@.subrange(0, i + 1).drop_last() =~= text@.subrange(0, i as int));
                assert(text@.subrange(0, i + 1).last() == c);
                assert(lines.push(cur@).drop_last() =~= lines);
            }
            if c == NEWLINE {
                let line = cur;
                cur = Vec::new();
                let item = self.decode_line(line);
                let ghost old_out = out@;
                match item {
                    Some(s) => {
                        out.push(s);
                        proof {
                            assert(strings_view(out@) =~= strings_view(old_out).push(s@));
                        }
                    },
                    None => {},
                }
            }
            i = i + 1;
        }
        assert(text@.subrange(0, n as int) =~= text@);
        let ghost lines = frame(text@).0;
        assert(lines.push(cur@).drop_last() =~= lines);
        if cur.len() > 0 {
            let item = self.decode_line(cur);
            match item {
                Some(s) => {
                    out.push(s);
                },
                None => {},
            }
        }
        out
    }
}

impl Stdout {
    /// The bytes written for one item: its text, then a newline.
    pub fn encode_line(&self, item: &str) -> (r: Vec<u8>)
        ensures
            r@ == line_bytes(item@),
    {
        let mut v = vstd::slice::slice_to_vec(item.as_bytes());
        v.push(NEWLINE);
        v
    }

    /// The bytes written for `items`, one line each, in arrival order.
    pub fn encode_all(&self, items: &Vec<String>) -> (r: Vec<u8>)
        ensures
            r@ == encode_lines(strings_view(items@)),
    {
        let mut out: Vec<u8> = Vec::new();
        let n = items.len();
        let mut i: usize = 0;
        while i < n
            invariant
                n == items@.len(),
                i <= n,
                out@ == encode_lines(strings_view(items@.subrange(0, i as int))),
            decreases n - i,
        {
            let line = self.encode_line(items[i].as_str());
            let mut k: usize = 0;
            let ghost start = out@;
            while k < line.len()
                invariant
                    k <= line@.len(),
                    out@ == start + line@.subrange(0, k as int),
                decreases line@.len() - k,
            {
                out.push(line[k]);
                k = k + 1;
                proof {
                    assert(start + line@.subrange(0, k as int) =~= (start + line@.subrange(0, k - 1)).push(line@[k - 1]));
                }
            }
            proof {
                let pre = strings_view(items@.subrange(0, i + 1));
                assert(pre.drop_last() =~= strings_view(items@.subrange(0, i as int)));
                assert(pre.last() == items@[i as int]@);
                assert(line@.subrange(0, line@.len() as int) =~= line@);
            }
            i = i + 1;
        }
        assert(items@.subrange(0, n as int) =~= items@);
        out
    }
}

/// A line that survives the trip through the console sink and source: it
/// holds no newline and does not end in a carriage return.
pub open spec fn is_plain_line(s: Seq<char>) -> bool {
    &&& forall|i: int| 0 <= i < s.len() ==> s[i] != '\n'
    &&& s.len() > 0 ==> s.last() != '\r'
}

proof fn lemma_encode_concat(a: Seq<char>, b: Seq<char>)
    ensures
        encode_utf8(a + b) == encode_utf8(a) + encode_utf8(b),
    decreases a.len(),
{
    if a.len() == 0 {
        assert(a + b =~= b);
        assert(encode_utf8(a) + encode_utf8(b) =~= encode_utf8(b));
    } else {
        assert((a + b)[0] == a[0]);
        assert((a + b).drop_first() =~= a.drop_first() + b);
        lemma_encode_concat(a.drop_first(), b);
        assert(encode_utf8(a + b) =~= encode_utf8(a) + encode_utf8(b));
    }
}

proof fn lemma_scalar_avoids(c: char, x: char)
    requires
        (x as u32) < 0x80,
        c != x,
    ensures
        forall|j: int| 0 <= j < encode_scalar(c as u32).len() ==> #[trigger] encode_scalar(c as u32)[j] != x as u8,
{
    let v = c as u32;
    let w = x as u32;
    let xb = x as u8;
    assert(xb == w as u8);
    if v == w {
        char_u32_cast(c, v);
        char_u32_cast(x, w);
    }
    if has_width_1_encoding(v) {
        assert((v & 0x7F) as u8 != w as u8) by (bit_vector)
            requires
                v <= 0x7F,
                w < 0x80,
                v != w,
        ;
    } else {
        assert(forall|y: u8| #![trigger (0x80u8 | y)] (0x80u8 | y) as u32 >= 0x80) by (bit_vector);
        assert(forall|y: u8| #![trigger (0xC0u8 | y)] (0xC0u8 | y) as u32 >= 0x80) by (bit_vector);
        assert(forall|y: u8| #![trigger (0xE0u8 | y)] (0xE0u8 | y) as u32 >= 0x80) by (bit_vector);
        assert(forall|y: u8| #![trigger (0xF0u8 | y)] (0xF0u8 | y) as u32 >= 0x80) by (bit_vector);
    }
}

proof fn lemma_encode_avoids(s: Seq<char>, x: char)
    requires
        (x as u32) < 0x80,
        forall|i: int| 0 <= i < s.len() ==> s[i] != x,
    ensures
        forall|j: int| 0 <= j < encode_utf8(s).len() ==> encode_utf8(s)[j] != x as u8,
    decreases s.len(),
{
    if s.len() > 0 {
        lemma_scalar_avoids(s[0], x);
        lemma_encode_avoids(s.drop_first(), x);
        let e = encode_scalar(s[0] as u32);
        let r = encode_utf8(s.drop_first());
        assert forall|j: int| 0 <= j < encode_utf8(s).len() implies encode_utf8(s)[j] != x as u8 by {
            if j < e.len() {
                assert(encode_utf8(s)[j] == e[j]);
            } else {
                assert(encode_utf8(s)[j] == r[j - e.len()]);
            }
        }
    }
}

proof fn lemma_plain_encoding(s: Seq<char>)
    requires
        is_plain_line(s),
    ensures
        forall|j: int| 0 <= j < encode_utf8(s).len() ==> encode_utf8(s)[j] != NEWLINE,
        encode_utf8(s).len() > 0 ==> encode_utf8(s).last() != CARRIAGE_RETURN,
        encode_utf8(s).len() == 0 <==> s.len() == 0,
{
    lemma_encode_avoids(s, '\n');
    if s.len() > 0 {
        let c = s.last();
        let init = s.drop_last();
        assert(s =~= init + seq![c]);
        lemma_encode_concat(init, seq![c]);
        assert(seq![c].drop_first() =~= Seq::<char>::empty());
        lemma_encode_avoids(seq![c], '\r');
        let e1 = encode_utf8(seq![c]);
        assert(e1.len() > 0);
        assert(encode_utf8(s).last() == e1.last());
    }
}

proof fn lemma_frame_append(x: Seq<u8>, y: Seq<u8>)
    requires
        forall|j: int| 0 <= j < y.len() ==> y[j] != NEWLINE,
    ensures
        frame(x + y) == (frame(x).0, frame(x).1 + y),
    decreases y.len(),
{
    if y.len() == 0 {
        assert(x + y =~= x);
        assert(frame(x).1 + y =~= frame(x).1);
    } else {
        assert((x + y).drop_last() =~= x + y.drop_last());
        assert((x + y).last() == y.last());
        lemma_frame_append(x, y.drop_last());
        assert((frame(x).1 + y.drop_last()).push(y.last()) =~= frame(x).1 + y);
    }
}

proof fn lemma_frame_encoded(items: Seq<Seq<char>>)
    requires
        forall|i: int| 0 <= i < items.len() ==> is_plain_line(#[trigger] items[i]),
    ensures
        frame(encode_lines(items)) == (items.map_values(|s: Seq<char>| line_bytes(s)), Seq::<u8>::empty()),
    decreases items.len(),
{
    if items.len() == 0 {
        assert(items.map_values(|s: Seq<char>| line_bytes(s)) =~= seq![]);
    } else {
        let init = items.drop_last();
        let l = items.last();
        assert(is_plain_line(items[items.len() - 1]));
        lemma_frame_encoded(init);
        let x = encode_lines(init);
        let e = encode_utf8(l);
        lemma_plain_encoding(l);
        lemma_frame_append(x, e);
        assert(encode_lines(items) =~= (x + e).push(NEWLINE));
        assert((x + e).push(NEWLINE).drop_last() =~= x + e);
        assert(Seq::<u8>::empty() + e =~= e);
        assert(items.map_values(|s: Seq<char>| line_bytes(s)) =~= init.map_values(
            |s: Seq<char>| line_bytes(s),
        ).push(line_bytes(l)));
    }
}

proof fn lemma_decode_encoded(items: Seq<Seq<char>>)
    requires
        forall|i: int| 0 <= i < items.len() ==> is_plain_line(#[trigger] items[i]),
    ensures
        decode_lines(items.map_values(|s: Seq<char>| line_bytes(s))) == items,
    decreases items.len(),
{
    broadcast use encode_utf8_valid_utf8, encode_utf8_decode_utf8;

    let raws = items.map_values(|s: Seq<char>| line_bytes(s));
    if items.len() == 0 {
        assert(raws =~= seq![]);
        assert(decode_lines(raws) =~= items);
    } else {
        let init = items.drop_last();
        let l = items.last();
        assert(is_plain_line(items[items.len() - 1]));
        lemma_decode_encoded(init);
        assert(raws.drop_last() =~= init.map_values(|s: Seq<char>| line_bytes(s)));
        lemma_plain_encoding(l);
        assert(line_bytes(l).drop_last() =~= encode_utf8(l));
        assert(strip_terminator(line_bytes(l)) == encode_utf8(l));
        assert(decode_line_spec(raws.last()) == Some(l));
        assert(init.push(l) =~= items);
    }
}

/// Items without embedded newlines (nor a trailing carriage return, which the
/// source drops as part of a CRLF terminator) come back from the console source,
/// as the console sink wrote them, exactly: the same number of lines, each equal
/// to its item, in order.
pub proof fn lemma_lines_round_trip(items: Seq<Seq<char>>)
    requires
        forall|i: int| 0 <= i < items.len() ==> is_plain_line(#[trigger] items[i]),
    ensures
        source_items(encode_lines(items)) == items,
{
    lemma_frame_encoded(items);
    lemma_decode_encoded(items);
}

} // verus!
