//! Reading the hexadecimal byte dumps that the debug tool prints: each byte
//! is two upper-case hexadecimal digits.
use vstd::prelude::*;

verus! {

/// The value of an upper-case hexadecimal digit.
pub open spec fn nibble_value(c: u8) -> Option<u8> {
    if 48 <= c <= 57 {
        Some((c - 48) as u8)
    } else if 65 <= c <= 70 {
        Some((c - 55) as u8)
    } else {
        None
    }
}

/// The value of an upper-case hexadecimal digit; anything else is refused.
pub fn parse_nibble(nibble: u8) -> (r: u8)
    requires
        nibble_value(nibble) is Some,
    ensures
        r == nibble_value(nibble)->0,
        r < 16,
{
    if 48 <= nibble && nibble <= 57 {
        nibble - 48
    } else if 65 <= nibble && nibble <= 70 {
        nibble - 55
    } else {
        0
    }
}

/// The byte two hexadecimal digits stand for, high digit first.
pub fn parse_hex(hex: &[u8]) -> (r: u8)
    requires
        hex@.len() == 2,
        nibble_value(hex@[0]) is Some,
        nibble_value(hex@[1]) is Some,
    ensures
        r == 16 * (nibble_value(hex@[0])->0) + nibble_value(hex@[1])->0,
{
    let hi = parse_nibble(hex[0]);
    let lo = parse_nibble(hex[1]);
    assert(hi << 4u8 | lo == 16 * hi + lo) by (bit_vector)
        requires
            hi < 16,
            lo < 16,
    ;
    hi << 4 | lo
}


/// How far a text runs before its first newline (all of it when it has none).
pub open spec fn first_nl(t: Seq<u8>) -> nat
    decreases t.len(),
{
    if t.len() == 0 {
        0
    } else if t[0] == 10 {
        0
    } else {
        1 + first_nl(t.skip(1))
    }
}

/// A line without the carriage return of a `\r\n` ending.
pub open spec fn strip_cr(l: Seq<u8>) -> Seq<u8> {
    if l.len() > 0 && l.last() == 13 {
        l.drop_last()
    } else {
        l
    }
}

/// The lines of a text, split at `\n` or `\r\n`; the last line ending is optional.
pub open spec fn lines_of(t: Seq<u8>) -> Seq<Seq<u8>>
    decreases t.len(),
{
    if t.len() == 0 {
        seq![]
    } else {
        let i = first_nl(t);
        if i < t.len() {
            seq![strip_cr(t.take(i as int))] + lines_of(t.skip(i + 1 as int))
        } else {
            seq![t]
        }
    }
}

proof fn lemma_first_nl(t: Seq<u8>, k: int)
    requires
        0 <= k <= t.len(),
        forall|j: int| 0 <= j < k ==> t[j] != 10,
        k == t.len() || t[k] == 10,
    ensures
        first_nl(t) == k,
    decreases k,
{
    if k > 0 {
        lemma_first_nl(t.skip(1), k - 1);
    }
}

/// The bytes `Size: 3500`.
pub open spec fn size_marker() -> Seq<u8> {
    seq![83u8, 105u8, 122u8, 101u8, 58u8, 32u8, 51u8, 53u8, 48u8, 48u8]
}

/// The line that announces the heatmap dump: it starts with `=` and holds
/// `Size: 3500`.
pub open spec fn is_header(l: Seq<u8>) -> bool {
    &&& l.len() > 0
    &&& l[0] == 61
    &&& exists|i: int| 0 <= i && i + 10 <= l.len() && #[trigger] l.subrange(i, i + 10) == size_marker()
}

/// The lines before the first empty one.
pub open spec fn leading_nonempty(ls: Seq<Seq<u8>>) -> Seq<Seq<u8>>
    decreases ls.len(),
{
    if ls.len() == 0 || ls[0].len() == 0 {
        seq![]
    } else {
        seq![ls[0]] + leading_nonempty(ls.skip(1))
    }
}

/// The lines of the dump: those after the first header line, up to the
/// first empty line.
pub open spec fn body_lines(ls: Seq<Seq<u8>>) -> Seq<Seq<u8>>
    decreases ls.len(),
{
    if ls.len() == 0 {
        seq![]
    } else if is_header(ls[0]) {
        leading_nonempty(ls.skip(1))
    } else {
        body_lines(ls.skip(1))
    }
}

/// Three bytes that encode a Unicode white-space character.
pub open spec fn ws3(a: u8, b: u8, c: u8) -> bool {
    ||| a == 0xE1 && b == 0x9A && c == 0x80
    ||| a == 0xE2 && b == 0x80 && ((0x80 <= c <= 0x8A) || c == 0xA8 || c == 0xA9 || c == 0xAF)
    ||| a == 0xE2 && b == 0x81 && c == 0x9F
    ||| a == 0xE3 && b == 0x80 && c == 0x80
}

/// The number of bytes of the white-space character a UTF-8 text ends with,
/// 0 when it ends with none.
pub open spec fn ws_tail(t: Seq<u8>) -> int {
    let n = t.len() as int;
    if n >= 1 && (t[n - 1] == 32 || (9 <= t[n - 1] <= 13)) {
        1
    } else if n >= 2 && t[n - 2] == 0xC2 && (t[n - 1] == 0x85 || t[n - 1] == 0xA0) {
        2
    } else if n >= 3 && ws3(t[n - 3], t[n - 2], t[n - 1]) {
        3
    } else {
        0
    }
}

/// A UTF-8 text without its trailing white space.
pub open spec fn trim_end(t: Seq<u8>) -> Seq<u8>
    decreases t.len(),
{
    if ws_tail(t) > 0 {
        trim_end(t.take(t.len() - ws_tail(t)))
    } else {
        t
    }
}

/// A line of the dump is bytes in hexadecimal, one space apart.
pub open spec fn line_ok(t: Seq<u8>) -> bool {
    &&& t.len() % 3 == 2
    &&& forall|j: int|
        0 <= j < t.len() ==> if j % 3 == 2 {
            #[trigger] t[j] == 32
        } else {
            nibble_value(t[j]) is Some
        }
}

/// The bytes a well-formed line stands for.
pub open spec fn line_bytes(t: Seq<u8>) -> Seq<u8> {
    Seq::new(
        (t.len() / 3 + 1) as nat,
        |j: int| (16 * nibble_value(t[3 * j])->0 + nibble_value(t[3 * j + 1])->0) as u8,
    )
}

/// The bytes of the dump's lines, each trimmed at its end; `None` when a
/// line is not bytes in hexadecimal one space apart.
pub open spec fn parse_lines(ls: Seq<Seq<u8>>) -> Option<Seq<u8>>
    decreases ls.len(),
{
    if ls.len() == 0 {
        Some(seq![])
    } else {
        let t = trim_end(ls[0]);
        match parse_lines(ls.skip(1)) {
            Some(rest) => if line_ok(t) {
                Some(line_bytes(t) + rest)
            } else {
                None
            },
            None => None,
        }
    }
}

/// The heatmap in a debug dump: the 3500 bytes written after the line that
/// announces it; `None` when the dump is malformed or of another length.
pub open spec fn dump_heatmap(t: Seq<u8>) -> Option<Seq<u8>> {
    match parse_lines(body_lines(lines_of(t))) {
        Some(b) => if b.len() == 3500 {
            Some(b)
        } else {
            None
        },
        None => None,
    }
}

/// The index of the first newline at or after `pos`, or the length.
fn line_end(s: &[u8], pos: usize) -> (k: usize)
    requires
        pos <= s@.len(),
    ensures
        pos <= k <= s@.len(),
        forall|j: int| pos <= j < k ==> s@[j] != 10,
        k == s@.len() || s@[k as int] == 10,
{
    let mut k = pos;
    while k < s.len() && s[k] != 10
        invariant
            pos <= k <= s@.len(),
            forall|j: int| pos <= j < k ==> s@[j] != 10,
        decreases s@.len() - k,
    {
        k += 1;
    }
    k
}

/// The lines from `pos` are the line that ends at `k` and those after it.
proof fn lemma_lines_step(s: Seq<u8>, pos: int, k: int)
    requires
        0 <= pos < k <= s.len() || (0 <= pos == k < s.len()),
        forall|j: int| pos <= j < k ==> s[j] != 10,
        k == s.len() || s[k] == 10,
    ensures
        k < s.len() ==> lines_of(s.skip(pos)) == seq![strip_cr(s.subrange(pos, k))] + lines_of(
            s.skip(k + 1),
        ),
        k == s.len() ==> lines_of(s.skip(pos)) == seq![s.subrange(pos, k)] && lines_of(s.skip(k))
            == Seq::<Seq<u8>>::empty(),
{
    let t = s.skip(pos);
    lemma_first_nl(t, k - pos);
    assert(t.take(k - pos) =~= s.subrange(pos, k));
    if k < s.len() {
        assert(t.skip(k - pos + 1) =~= s.skip(k + 1));
    } else {
        assert(t =~= s.subrange(pos, k));
    }
}

/// Whether the bytes from `start` to `end` make a header line.
fn is_header_at(s: &[u8], start: usize, end: usize) -> (r: bool)
    requires
        start <= end <= s@.len(),
    ensures
        r == is_header(s@.subrange(start as int, end as int)),
{
    let ghost l = s@.subrange(start as int, end as int);
    if end == start || s[start] != 61 {
        return false;
    }
    let marker: [u8; 10] = [83, 105, 122, 101, 58, 32, 51, 53, 48, 48];
    assert(marker@ =~= size_marker());
    let mut i = start;
    while i < end && end - i >= 10
        invariant
            start <= i <= end,
            end <= s@.len(),
            l == s@.subrange(start as int, end as int),
            l.len() > 0,
            l[0] == 61,
            marker@ == size_marker(),
            forall|a: int|
                0 <= a < i - start && a + 10 <= l.len() ==> #[trigger] l.subrange(a, a + 10)
                    != size_marker(),
        decreases end - i,
    {
        let mut j: usize = 0;
        while j < 10 && s[i + j] == marker[j]
            invariant
                0 <= j <= 10,
                start <= i,
                i + 10 <= end <= s@.len(),
                forall|b: int| 0 <= b < j ==> s@[i + b] == marker@[b],
            decreases 10 - j,
        {
            j += 1;
        }
        if j == 10 {
            assert(l.subrange(i - start, i - start + 10) =~= size_marker());
            return true;
        }
        assert(l.subrange(i - start, i - start + 10)[j as int] != size_marker()[j as int]);
        i += 1;
    }
    proof {
        assert forall|a: int| 0 <= a && a + 10 <= l.len() implies #[trigger] l.subrange(a, a + 10)
            != size_marker() by {}
    }
    false
}

/// The bytes of the white-space character that the bytes from `start` to
/// `end` end with.
fn ws_tail_at(s: &[u8], start: usize, end: usize) -> (w: usize)
    requires
        start <= end <= s@.len(),
    ensures
        w == ws_tail(s@.subrange(start as int, end as int)),
{
    let n = end - start;
    if n >= 1 {
        let c = s[end - 1];
        if c == 32 || (9 <= c && c <= 13) {
            return 1;
        }
    }
    if n >= 2 && s[end - 2] == 0xC2 && (s[end - 1] == 0x85 || s[end - 1] == 0xA0) {
        return 2;
    }
    if n >= 3 {
        let a = s[end - 3];
        let b = s[end - 2];
        let c = s[end - 1];
        if (a == 0xE1 && b == 0x9A && c == 0x80) || (a == 0xE2 && b == 0x80 && ((0x80 <= c && c
            <= 0x8A) || c == 0xA8 || c == 0xA9 || c == 0xAF)) || (a == 0xE2 && b == 0x81 && c
            == 0x9F) || (a == 0xE3 && b == 0x80 && c == 0x80) {
            return 3;
        }
    }
    0
}

/// Where the bytes from `start` to `end` stop once their trailing white
/// space is cut off.
fn trim_end_at(s: &[u8], start: usize, end: usize) -> (te: usize)
    requires
        start <= end <= s@.len(),
    ensures
        start <= te <= end,
        s@.subrange(start as int, te as int) == trim_end(s@.subrange(start as int, end as int)),
{
    let mut te = end;
    loop
        invariant
            start <= te <= end <= s@.len(),
            trim_end(s@.subrange(start as int, te as int)) == trim_end(
                s@.subrange(start as int, end as int),
            ),
        decreases te - start,
    {
        let w = ws_tail_at(s, start, te);
        if w == 0 {
            return te;
        }
        assert(s@.subrange(start as int, te as int).take(te - start - w) =~= s@.subrange(
            start as int,
            (te - w) as int,
        ));
        te = te - w;
    }
}

/// Appends the bytes of the line from `start` to `end` to `out`; `false`,
/// with `out` unchanged, when it is not bytes in hexadecimal one space apart.
fn parse_line_at(s: &[u8], start: usize, end: usize, out: &mut Vec<u8>) -> (ok: bool)
    requires
        start <= end <= s@.len(),
    ensures
        ok == line_ok(s@.subrange(start as int, end as int)),
        ok ==> final(out)@ == old(out)@ + line_bytes(s@.subrange(start as int, end as int)),
        !ok ==> final(out)@ == old(out)@,
{
    let ghost t = s@.subrange(start as int, end as int);
    let n = end - start;
    if n % 3 != 2 {
        return false;
    }
    let mut j: usize = 0;
    while j < n
        invariant
            0 <= j <= n,
            n == t.len(),
            n % 3 == 2,
            start + n == end <= s@.len(),
            t == s@.subrange(start as int, end as int),
            forall|i: int|
                0 <= i < j ==> if i % 3 == 2 {
                    #[trigger] t[i] == 32
                } else {
                    nibble_value(t[i]) is Some
                },
        decreases n - j,
    {
        let c = s[start + j];
        let good = if j % 3 == 2 {
            c == 32
        } else {
            (48 <= c && c <= 57) || (65 <= c && c <= 70)
        };
        if !good {
            assert(!(if j % 3 == 2 {
                t[j as int] == 32
            } else {
                nibble_value(t[j as int]) is Some
            }));
            return false;
        }
        j += 1;
    }
    let ghost before = out@;
    let count = n / 3 + 1;
    let mut g: usize = 0;
    while g < count
        invariant
            0 <= g <= count,
            count == n / 3 + 1,
            n == t.len(),
            line_ok(t),
            start + n == end <= s@.len(),
            t == s@.subrange(start as int, end as int),
            out@ == before + line_bytes(t).take(g as int),
        decreases count - g,
    {
        assert(3 * g + 1 < n);
        assert(nibble_value(t[3 * g as int]) is Some && nibble_value(t[3 * g + 1]) is Some) by {
            assert((3 * g as int) % 3 == 0);
            assert((3 * g as int + 1) % 3 == 1);
        }
        let hex = [s[start + 3 * g], s[start + 3 * g + 1]];
        let b = parse_hex(&hex);
        out.push(b);
        assert(line_bytes(t).take(g + 1) =~= line_bytes(t).take(g as int).push(b));
        g += 1;
    }
    assert(line_bytes(t).take(count as int) =~= line_bytes(t));
    true
}

/// The value a dump's bytes stand for, when one more line is read.
pub open spec fn with_prefix(acc: Seq<u8>, rest: Option<Seq<u8>>) -> Option<Seq<u8>> {
    match rest {
        Some(r) => Some(acc + r),
        None => None,
    }
}

/// Reads the heatmap out of a debug dump (UTF-8 text): the lines after the
/// first one that starts with `=` and holds `Size: 3500`, up to the first
/// empty line, each trimmed at its end and made of bytes in upper-case
/// hexadecimal one space apart. `None` when a line is malformed or the
/// bytes are not 3500.
pub fn parse_dump(txt: &[u8]) -> (r: Option<Vec<u8>>)
    ensures
        r is None <==> dump_heatmap(txt@) is None,
        r matches Some(v) ==> dump_heatmap(txt@) == Some(v@),
{
    let ghost s = txt@;
    let mut pos: usize = 0;
    let mut collecting = false;
    let mut acc: Vec<u8> = Vec::new();
    assert(s.skip(0) =~= s);
    while pos < txt.len()
        invariant
            pos <= s.len(),
            pos == s.len() ==> lines_of(s.skip(pos as int)) == Seq::<Seq<u8>>::empty(),
            !collecting ==> acc@ == Seq::<u8>::empty(),
            s == txt@,
            !collecting ==> body_lines(lines_of(s)) == body_lines(lines_of(s.skip(pos as int))),
            collecting ==> parse_lines(body_lines(lines_of(s))) == with_prefix(
                acc@,
                parse_lines(leading_nonempty(lines_of(s.skip(pos as int)))),
            ),
        ensures
            collecting ==> parse_lines(body_lines(lines_of(s))) == Some(acc@),
            !collecting ==> body_lines(lines_of(s)) == Seq::<Seq<u8>>::empty(),
        decreases s.len() - pos,
    {
        let k = line_end(txt, pos);
        let e = if k < txt.len() && k > pos && txt[k - 1] == 13 {
            k - 1
        } else {
            k
        };
        proof {
            lemma_lines_step(s, pos as int, k as int);
            if k < s.len() {
                assert(strip_cr(s.subrange(pos as int, k as int)) =~= s.subrange(
                    pos as int,
                    e as int,
                ));
            }
        }
        let ghost line = s.subrange(pos as int, e as int);
        let next = if k < txt.len() {
            k + 1
        } else {
            k
        };
        let ghost rest = lines_of(s.skip(next as int));
        proof {
            if next == s.len() {
                assert(s.skip(next as int) =~= Seq::<u8>::empty());
            }
        }
        assert(lines_of(s.skip(pos as int)) =~= seq![line] + rest);
        assert((seq![line] + rest).skip(1) =~= rest);
        if !collecting {
            if is_header_at(txt, pos, e) {
                collecting = true;
                proof {
                    match parse_lines(leading_nonempty(rest)) {
                        Some(r) => {
                            assert(acc@ + r =~= r);
                        },
                        None => {},
                    }
                }
            }
        } else {
            if e == pos {
                assert(line.len() == 0);
                assert(leading_nonempty(seq![line] + rest) == Seq::<Seq<u8>>::empty());
                assert(acc@ + seq![] =~= acc@);
                break;
            }
            let te = trim_end_at(txt, pos, e);
            let ghost before = acc@;
            let ghost ln = leading_nonempty(seq![line] + rest);
            assert(ln == seq![line] + leading_nonempty(rest));
            assert(ln[0] == line);
            assert(ln.skip(1) =~= leading_nonempty(rest));
            if !parse_line_at(txt, pos, te, &mut acc) {
                return None;
            }
            proof {
                match parse_lines(leading_nonempty(rest)) {
                    Some(r) => {
                        assert(before + (line_bytes(trim_end(line)) + r) =~= acc@ + r);
                    },
                    None => {},
                }
            }
        }
        pos = next;
    }
    if !collecting {
        return None;
    }
    if acc.len() == 3500 {
        Some(acc)
    } else {
        None
    }
}

/// The upper-case hexadecimal digit for `n < 16`.
pub open spec fn hex_digit(n: int) -> u8 {
    if n < 10 {
        (48 + n) as u8
    } else {
        (55 + n) as u8
    }
}

/// Bytes in upper-case hexadecimal, 64 to a line: two digits per byte, a
/// space between bytes of a line and a newline between lines.
pub open spec fn dump_text(d: Seq<u8>) -> Seq<u8> {
    Seq::new(
        (3 * d.len() - 1) as nat,
        |p: int|
            if p % 3 == 0 {
                hex_digit(d[p / 3] as int / 16)
            } else if p % 3 == 1 {
                hex_digit(d[p / 3] as int % 16)
            } else if (p / 3 + 1) % 64 == 0 {
                10u8
            } else {
                32u8
            },
    )
}

/// The digit for `n < 16`.
pub(crate) fn hex_digit_of(n: u8) -> (r: u8)
    requires
        n < 16,
    ensures
        r == hex_digit(n as int),
{
    if n < 10 {
        48 + n
    } else {
        55 + n
    }
}

/// Writes the first `n` bytes of `d` as `dump_text` does.
pub(crate) fn write_dump_text(d: &[u8], n: usize) -> (r: Vec<u8>)
    requires
        1 <= n <= d@.len(),
        3 * n <= usize::MAX,
    ensures
        r@ == dump_text(d@.take(n as int)),
{
    let mut out: Vec<u8> = Vec::new();
    let mut i: usize = 0;
    while i < n
        invariant
            0 <= i <= n <= d@.len(),
            3 * n <= usize::MAX,
            i == 0 ==> out@.len() == 0,
            i > 0 ==> out@ == dump_text(d@.take(i as int)),
        decreases n - i,
    {
        let ghost before = out@;
        if i > 0 {
            if i % 64 == 0 {
                out.push(10);
            } else {
                out.push(32);
            }
        }
        let b = d[i];
        out.push(hex_digit_of(b / 16));
        out.push(hex_digit_of(b % 16));
        proof {
            let t = dump_text(d@.take(i + 1));
            assert(out@.len() == t.len());
            assert forall|p: int| 0 <= p < t.len() implies out@[p] == #[trigger] t[p] by {
                if p < 3 * i - 1 {
                    assert(out@[p] == before[p]);
                    assert(d@.take(i + 1)[p / 3] == d@.take(i as int)[p / 3]);
                } else if p == 3 * i - 1 {
                    assert(p / 3 == i - 1);
                } else if p == 3 * i {
                    assert(p / 3 == i);
                } else {
                    assert(p / 3 == i);
                }
            }
            assert(out@ =~= t);
        }
        i += 1;
    }
    out
}

/// The lines of `dump_text(d)`: one per 64 bytes.
pub open spec fn chunk_lines(d: Seq<u8>) -> Seq<Seq<u8>>
    decreases d.len(),
{
    if d.len() <= 64 {
        seq![dump_text(d)]
    } else {
        seq![dump_text(d.take(64))] + chunk_lines(d.skip(64))
    }
}

proof fn lemma_hex_digit(x: int)
    requires
        0 <= x < 16,
    ensures
        nibble_value(hex_digit(x)) == Some(x as u8),
        48 <= hex_digit(x) <= 57 || 65 <= hex_digit(x) <= 70,
{
}

/// Past its first 64 bytes, the text goes on on a new line.
proof fn lemma_dump_text_split(d: Seq<u8>)
    requires
        d.len() > 64,
    ensures
        dump_text(d) == dump_text(d.take(64)) + seq![10u8] + dump_text(d.skip(64)),
{
    let a = dump_text(d.take(64));
    let b = dump_text(d.skip(64));
    let t = dump_text(d);
    let r = a + seq![10u8] + b;
    assert(t.len() == r.len());
    assert forall|p: int| 0 <= p < t.len() implies t[p] == #[trigger] r[p] by {
        if p < 191 {
            assert(p / 3 < 64);
        } else if p == 191 {
            assert(p / 3 == 63 && p % 3 == 2);
        } else {
            let q = p - 192;
            assert(q / 3 == p / 3 - 64 && q % 3 == p % 3);
            assert((q / 3 + 1) % 64 == (p / 3 + 1) % 64);
        }
    }
    assert(t =~= r);
}

/// A line of at most 64 bytes: no newline in it, no white space at its
/// end, and it reads back as the bytes.
proof fn lemma_dump_line(c: Seq<u8>)
    requires
        1 <= c.len() <= 64,
    ensures
        forall|j: int| 0 <= j < dump_text(c).len() ==> #[trigger] dump_text(c)[j] != 10,
        dump_text(c).len() > 0,
        dump_text(c).last() != 13,
        trim_end(dump_text(c)) == dump_text(c),
        line_ok(dump_text(c)),
        line_bytes(dump_text(c)) == c,
{
    let t = dump_text(c);
    let n = c.len() as int;
    assert forall|j: int| 0 <= j < t.len() implies #[trigger] t[j] != 10 && (j % 3 == 2 ==> t[j]
        == 32) && (j % 3 != 2 ==> nibble_value(t[j]) is Some) by {
        if j % 3 == 2 {
            assert(j / 3 + 1 < 64);
        } else if j % 3 == 0 {
            lemma_hex_digit(c[j / 3] as int / 16);
        } else {
            lemma_hex_digit(c[j / 3] as int % 16);
        }
    }
    assert((3 * n - 2) % 3 == 1 && (3 * n - 2) / 3 == n - 1);
    lemma_hex_digit(c[n - 1] as int % 16);
    assert(t.last() == hex_digit(c[n - 1] as int % 16));
    assert(ws_tail(t) == 0);
    assert(line_ok(t));
    let l = line_bytes(t);
    assert(l.len() == n);
    assert forall|j: int| 0 <= j < n implies #[trigger] l[j] == c[j] by {
        assert((3 * j) % 3 == 0 && (3 * j) / 3 == j);
        assert((3 * j + 1) % 3 == 1 && (3 * j + 1) / 3 == j);
        lemma_hex_digit(c[j] as int / 16);
        lemma_hex_digit(c[j] as int % 16);
    }
    assert(l =~= c);
}

/// The lines of a text are its first line and the lines after the newline.
proof fn lemma_lines_cons(a: Seq<u8>, b: Seq<u8>)
    requires
        forall|j: int| 0 <= j < a.len() ==> a[j] != 10,
    ensures
        lines_of(a + seq![10u8] + b) == seq![strip_cr(a)] + lines_of(b),
{
    let t = a + seq![10u8] + b;
    lemma_first_nl(t, a.len() as int);
    assert(t.take(a.len() as int) =~= a);
    assert(t.skip(a.len() + 1int) =~= b);
}

proof fn lemma_newline_line()
    ensures
        lines_of(seq![10u8]) == seq![Seq::<u8>::empty()],
        leading_nonempty(seq![Seq::<u8>::empty()]) == Seq::<Seq<u8>>::empty(),
        parse_lines(Seq::<Seq<u8>>::empty()) == Some(Seq::<u8>::empty()),
{
    let e = Seq::<u8>::empty();
    lemma_lines_cons(e, e);
    assert(e + seq![10u8] + e =~= seq![10u8]);
    assert(lines_of(e) == Seq::<Seq<u8>>::empty());
    assert(strip_cr(e) == e);
    assert(seq![e] + Seq::<Seq<u8>>::empty() =~= seq![e]);
}

/// One line's worth of bytes.
proof fn lemma_dump_lines_last(d: Seq<u8>)
    requires
        1 <= d.len() <= 64,
    ensures
        lines_of(dump_text(d) + seq![10u8, 10u8]) == chunk_lines(d) + seq![Seq::<u8>::empty()],
        leading_nonempty(chunk_lines(d) + seq![Seq::<u8>::empty()]) == chunk_lines(d),
        parse_lines(chunk_lines(d)) == Some(d),
{
    lemma_dump_line(d);
    let t = dump_text(d);
    assert(chunk_lines(d) == seq![t]);
    lemma_last_line_split(t);
    lemma_last_line_parse(t, d);
}

proof fn lemma_last_line_split(t: Seq<u8>)
    requires
        t.len() > 0,
        forall|j: int| 0 <= j < t.len() ==> #[trigger] t[j] != 10,
        t.last() != 13,
    ensures
        lines_of(t + seq![10u8, 10u8]) == seq![t] + seq![Seq::<u8>::empty()],
        leading_nonempty(seq![t] + seq![Seq::<u8>::empty()]) == seq![t],
{
    let e = Seq::<u8>::empty();
    lemma_newline_line();
    lemma_lines_cons(t, seq![10u8]);
    assert(t + seq![10u8, 10u8] =~= t + seq![10u8] + seq![10u8]);
    assert(strip_cr(t) == t);
    assert(seq![t] + seq![e] =~= seq![t, e]);
    assert(seq![t, e].skip(1) =~= seq![e]);
    assert(seq![t, e][0] == t);
    assert(seq![t] + Seq::<Seq<u8>>::empty() =~= seq![t]);
}

proof fn lemma_last_line_parse(t: Seq<u8>, d: Seq<u8>)
    requires
        trim_end(t) == t,
        line_ok(t),
        line_bytes(t) == d,
    ensures
        parse_lines(seq![t]) == Some(d),
{
    lemma_newline_line();
    assert(seq![t].skip(1) =~= Seq::<Seq<u8>>::empty());
    assert(seq![t][0] == t);
    assert(line_bytes(t) + Seq::<u8>::empty() =~= d);
}

proof fn lemma_dump_lines(d: Seq<u8>)
    requires
        d.len() >= 1,
    ensures
        lines_of(dump_text(d) + seq![10u8, 10u8]) == chunk_lines(d) + seq![Seq::<u8>::empty()],
        leading_nonempty(chunk_lines(d) + seq![Seq::<u8>::empty()]) == chunk_lines(d),
        parse_lines(chunk_lines(d)) == Some(d),
    decreases d.len(),
{
    if d.len() <= 64 {
        lemma_dump_lines_last(d);
    } else {
        let e = Seq::<u8>::empty();
        let h = d.take(64);
        let rest = d.skip(64);
        lemma_dump_lines(rest);
        lemma_dump_text_split(d);
        lemma_dump_line(h);
        let th = dump_text(h);
        let tr = dump_text(rest) + seq![10u8, 10u8];
        assert(dump_text(d) + seq![10u8, 10u8] =~= th + seq![10u8] + tr);
        lemma_lines_cons(th, tr);
        assert(strip_cr(th) == th);
        let cl = chunk_lines(d);
        assert(cl == seq![th] + chunk_lines(rest));
        assert(cl + seq![e] =~= seq![th] + (chunk_lines(rest) + seq![e]));
        let l2 = cl + seq![e];
        assert(l2[0] == th);
        assert(l2.skip(1) =~= chunk_lines(rest) + seq![e]);
        assert(cl[0] == th);
        assert(cl.skip(1) =~= chunk_lines(rest));
        assert(line_bytes(th) + rest =~= d);
    }
}

/// Reading a dump back: a header line, then the text of a 3500-byte frame
/// and an empty line, as the debug tool prints it, give back the frame.
pub proof fn lemma_dump_roundtrip(header: Seq<u8>, frame: Seq<u8>)
    requires
        is_header(header),
        forall|j: int| 0 <= j < header.len() ==> header[j] != 10,
        header.last() != 13,
        frame.len() == 3500,
    ensures
        dump_heatmap(header + seq![10u8] + dump_text(frame) + seq![10u8, 10u8]) == Some(frame),
{
    let tail = dump_text(frame) + seq![10u8, 10u8];
    assert(header + seq![10u8] + dump_text(frame) + seq![10u8, 10u8] =~= header + seq![10u8]
        + tail);
    lemma_lines_cons(header, tail);
    lemma_dump_lines(frame);
    assert(strip_cr(header) == header);
    let ls = seq![header] + lines_of(tail);
    assert(ls[0] == header);
    assert(ls.skip(1) =~= lines_of(tail));
}

} // verus!
