//! Stored arrays: the head of a file of single-precision numbers, where its blocks lie, and the
//! labels of the qualifying set.

use crate::text::chars_occur_at;
use crate::text::chars_of;
use crate::text::find_char;
use crate::text::first_char;
use crate::text::i32_value;
use crate::text::occurs_at;
use crate::text::parse_i32_text;
use crate::text::parse_u64;
use crate::text::piece;
use crate::text::trim;
use crate::text::trimmed;
use crate::text::u64_value;
use crate::text::views;
use vstd::prelude::*;
use vstd::string::*;

verus! {

/// Why a file is not an array of single-precision numbers.
#[derive(Clone, Copy, PartialEq, Eq, Structural, Debug)]
pub enum NpyError {
    /// The file ends within its head.
    Short,
    /// The file does not begin as an array file does.
    BadMagic,
    /// The numbers are of another type.
    BadType,
    /// The head does not tell the shape.
    NoShape,
    /// The shape does not open.
    NoOpen,
    /// The shape does not close.
    NoClose,
    /// The shape is not a length.
    BadShape,
}

/// Where the head of a file ends.
#[derive(Clone, Copy, PartialEq, Eq, Structural, Debug)]
pub struct Preamble {
    /// The length of the text that describes the array.
    pub header_len: u64,
    /// Where that text begins.
    pub header_at: u64,
}

pub open spec fn magic(b: Seq<u8>) -> bool {
    b.take(6) == seq![0x93u8, 0x4eu8, 0x55u8, 0x4du8, 0x50u8, 0x59u8]
}

/// What the first bytes of a file say: a mark, the version, and the length of the text that
/// follows, in two bytes or four.
pub open spec fn preamble_spec(b: Seq<u8>) -> Result<Preamble, NpyError> {
    if b.len() < 6 {
        Err(NpyError::Short)
    } else if !magic(b) {
        Err(NpyError::BadMagic)
    } else if b.len() < 10 {
        Err(NpyError::Short)
    } else if b[6] == 1 {
        Ok(Preamble { header_len: (b[8] + 256 * b[9]) as u64, header_at: 10 })
    } else if b.len() < 12 {
        Err(NpyError::Short)
    } else {
        Ok(
            Preamble {
                header_len: (b[8] + 256 * b[9] + 65536 * b[10] + 16777216 * b[11]) as u64,
                header_at: 12,
            },
        )
    }
}

/// Reads the first bytes of a file.
pub fn read_preamble(b: &[u8]) -> (r: Result<Preamble, NpyError>)
    ensures
        r == preamble_spec(b@),
{
    if b.len() < 6 {
        return Err(NpyError::Short);
    }
    let ok: bool = b[0] == 0x93 && b[1] == 0x4e && b[2] == 0x55 && b[3] == 0x4d && b[4] == 0x50
        && b[5] == 0x59;
    proof {
        let m = seq![0x93u8, 0x4eu8, 0x55u8, 0x4du8, 0x50u8, 0x59u8];
        if ok {
            assert(b@.take(6) =~= m);
        } else if b@.take(6) == m {
            assert(b@.take(6)[0] == b@[0] && b@.take(6)[1] == b@[1] && b@.take(6)[2] == b@[2]
                && b@.take(6)[3] == b@[3] && b@.take(6)[4] == b@[4] && b@.take(6)[5] == b@[5]);
        }
    }
    if !ok {
        return Err(NpyError::BadMagic);
    }
    if b.len() < 10 {
        return Err(NpyError::Short);
    }
    if b[6] == 1 {
        let n: u64 = b[8] as u64 + 256 * (b[9] as u64);
        return Ok(Preamble { header_len: n, header_at: 10 });
    }
    if b.len() < 12 {
        return Err(NpyError::Short);
    }
    let n: u64 = b[8] as u64 + 256 * (b[9] as u64) + 65536 * (b[10] as u64) + 16777216 * (
    b[11] as u64);
    Ok(Preamble { header_len: n, header_at: 12 })
}

/// Where a text first occurs in another from `i` on, or one past the last place.
pub open spec fn first_text(s: Seq<char>, p: Seq<char>, i: int) -> int
    decreases s.len() + 1 - i,
{
    if i < 0 || i > s.len() {
        (s.len() + 1) as int
    } else if occurs_at(s, p, i) {
        i
    } else {
        first_text(s, p, i + 1)
    }
}

/// Finds where a text first occurs in another.
pub fn find_text(s: &Vec<char>, p: &str) -> (r: Option<usize>)
    ensures
        match r {
            Some(k) => k == first_text(s@, p@, 0) && k <= s.len(),
            None => first_text(s@, p@, 0) == s.len() + 1,
        },
{
    let pv: Vec<char> = chars_of(p);
    let mut i: usize = 0;
    while i < s.len()
        invariant
            i <= s.len(),
            pv@ == p@,
            first_text(s@, p@, 0) == first_text(s@, p@, i as int),
        decreases s.len() - i,
    {
        if chars_occur_at(s, &pv, i) {
            return Some(i);
        }
        i += 1;
    }
    proof {
        assert(first_text(s@, p@, s.len() + 1) == s.len() + 1);
    }
    if chars_occur_at(s, &pv, i) {
        Some(i)
    } else {
        None
    }
}

/// The length that the text in the head of a file tells: of single-precision numbers, the first
/// number in the brackets after the word for the shape.
pub open spec fn shape_spec(h: Seq<char>) -> Result<u64, NpyError> {
    let at = first_text(h, "'shape':"@, 0);
    let open = first_char(h, '(', at);
    let close = first_char(h, ')', at);
    let inside = h.subrange(open + 1, close);
    if first_text(h, "'<f4'"@, 0) > h.len() {
        Err(NpyError::BadType)
    } else if at > h.len() {
        Err(NpyError::NoShape)
    } else if open >= h.len() {
        Err(NpyError::NoOpen)
    } else if close >= h.len() {
        Err(NpyError::NoClose)
    } else if close < open {
        Err(NpyError::BadShape)
    } else {
        match u64_value(trimmed(inside.take(first_char(inside, ',', 0)))) {
            Some(n) => Ok(n),
            None => Err(NpyError::BadShape),
        }
    }
}

/// Reads the length of an array from the text in the head of its file.
pub fn read_shape(header: &str) -> (r: Result<u64, NpyError>)
    ensures
        r == shape_spec(header@),
{
    let h: Vec<char> = chars_of(header);
    if find_text(&h, "'<f4'").is_none() {
        return Err(NpyError::BadType);
    }
    let at: usize = match find_text(&h, "'shape':") {
        Some(k) => k,
        None => {
            return Err(NpyError::NoShape);
        },
    };
    let open: usize = find_char(&h, '(', at);
    let close: usize = find_char(&h, ')', at);
    proof {
        crate::text::lemma_first_char(h@, '(', at as int);
        crate::text::lemma_first_char(h@, ')', at as int);
    }
    if open >= h.len() {
        return Err(NpyError::NoOpen);
    }
    if close >= h.len() {
        return Err(NpyError::NoClose);
    }
    if close < open {
        return Err(NpyError::BadShape);
    }
    let inside: String = piece(&h, open + 1, close);
    let v: Vec<char> = chars_of(inside.as_str());
    let comma: usize = find_char(&v, ',', 0);
    proof {
        crate::text::lemma_first_char(v@, ',', 0);
        assert(v@.subrange(0, comma as int) =~= v@.take(comma as int));
    }
    let first: String = piece(&v, 0, comma);
    match parse_u64(trim(first.as_str()).as_str()) {
        Some(n) => Ok(n),
        None => Err(NpyError::BadShape),
    }
}

/// Where in a file a block of numbers lies, if the array has it all.
pub fn block_offset(data_at: u64, len: u64, start: u64, count: u64) -> (r: Option<u64>)
    requires
        data_at + 4 * len <= u64::MAX,
    ensures
        match r {
            Some(at) => start + count <= len && at == data_at + 4 * start,
            None => start + count > len,
        },
{
    if start > len || count > len - start {
        None
    } else {
        Some(data_at + 4 * start)
    }
}

/// The `i`-th word of some bytes, the least byte first.
pub open spec fn word_at(b: Seq<u8>, i: int) -> int {
    b[4 * i] + 256 * b[4 * i + 1] + 65536 * b[4 * i + 2] + 16777216 * b[4 * i + 3]
}

/// Reads bytes as words, the least byte first: the bits of the numbers of a block.
pub fn read_words(b: &[u8]) -> (r: Vec<u32>)
    ensures
        r.len() == b.len() / 4,
        forall|i: int| 0 <= i < r.len() ==> #[trigger] r@[i] == word_at(b@, i),
{
    let n: usize = b.len() / 4;
    let mut out: Vec<u32> = Vec::new();
    let mut i: usize = 0;
    while i < n
        invariant
            i <= n,
            n == b.len() / 4,
            out.len() == i,
            forall|k: int| 0 <= k < i ==> #[trigger] out@[k] == word_at(b@, k),
        decreases n - i,
    {
        let w: u32 = b[4 * i] as u32 + 256 * (b[4 * i + 1] as u32) + 65536 * (b[4 * i + 2] as u32)
            + 16777216 * (b[4 * i + 3] as u32);
        out.push(w);
        i += 1;
    }
    out
}

// ---------------------------------------------------------------------------
// Labels
// ---------------------------------------------------------------------------

/// Why a line of labels cannot be read.
#[derive(Clone, Copy, PartialEq, Eq, Structural, Debug)]
pub enum LabelError {
    /// The line has no comma.
    BadRow(usize),
    /// The rating is no number of eight bits.
    BadRating(usize),
    /// The mark is no number of eight bits.
    BadTest(usize),
}

/// The signed number of eight bits that a text writes around its white space.
pub open spec fn i8_value(s: Seq<char>) -> Option<i8> {
    match i32_value(trimmed(s)) {
        Some(n) => if -128 <= n <= 127 {
            Some(n as i8)
        } else {
            None
        },
        None => None,
    }
}

fn read_i8(s: &str) -> (r: Option<i8>)
    ensures
        r == i8_value(s@),
{
    match parse_i32_text(trim(s).as_str()) {
        Some(n) => {
            if -128 <= n && n <= 127 {
                Some(n as i8)
            } else {
                None
            }
        },
        None => None,
    }
}

/// The rating and the mark in a line, on either side of its first comma.
pub open spec fn label_row(line: Seq<char>, i: int) -> Result<(i8, i8), LabelError> {
    let k = first_char(line, ',', 0);
    if k >= line.len() {
        Err(LabelError::BadRow(i as usize))
    } else {
        match (i8_value(line.take(k)), i8_value(line.skip(k + 1))) {
            (Some(y), Some(t)) => Ok((y, t)),
            (None, _) => Err(LabelError::BadRating(i as usize)),
            (_, None) => Err(LabelError::BadTest(i as usize)),
        }
    }
}

/// The labels in some lines, the first of which names them.
pub open spec fn labels_of(lines: Seq<Seq<char>>) -> Result<(Seq<i8>, Seq<i8>), LabelError>
    decreases lines.len(),
{
    if lines.len() <= 1 {
        Ok((Seq::empty(), Seq::empty()))
    } else {
        match labels_of(lines.drop_last()) {
            Err(e) => Err(e),
            Ok((y, t)) => match label_row(lines.last(), lines.len() - 1) {
                Err(e) => Err(e),
                Ok((a, b)) => Ok((y.push(a), t.push(b))),
            },
        }
    }
}

proof fn lemma_labels_stuck(lines: Seq<Seq<char>>, i: int)
    requires
        0 <= i <= lines.len(),
        labels_of(lines.take(i)) is Err,
    ensures
        labels_of(lines) == labels_of(lines.take(i)),
    decreases lines.len() - i,
{
    if i < lines.len() {
        assert(lines.take(i + 1).drop_last() =~= lines.take(i));
        lemma_labels_stuck(lines, i + 1);
    } else {
        assert(lines.take(i) =~= lines);
    }
}

fn read_label(line: &str, i: usize) -> (r: Result<(i8, i8), LabelError>)
    ensures
        r == label_row(line@, i as int),
{
    let v: Vec<char> = chars_of(line);
    let k: usize = find_char(&v, ',', 0);
    proof {
        crate::text::lemma_first_char(v@, ',', 0);
    }
    if k >= v.len() {
        return Err(LabelError::BadRow(i));
    }
    proof {
        assert(v@.subrange(0, k as int) =~= v@.take(k as int));
        assert(v@.subrange(k + 1, v.len() as int) =~= v@.skip(k + 1));
    }
    let a: Option<i8> = read_i8(piece(&v, 0, k).as_str());
    let b: Option<i8> = read_i8(piece(&v, k + 1, v.len()).as_str());
    match a {
        None => Err(LabelError::BadRating(i)),
        Some(y) => match b {
            None => Err(LabelError::BadTest(i)),
            Some(t) => Ok((y, t)),
        },
    }
}

/// Reads the labels of the qualifying set from the lines that ship with the project: one rating
/// and one mark to a line, after a line that names them.
pub fn load_qual_labels(lines: &Vec<String>) -> (r: Result<(Vec<i8>, Vec<i8>), LabelError>)
    ensures
        match r {
            Ok((y, t)) => labels_of(views(lines@)) == Ok::<(Seq<i8>, Seq<i8>), LabelError>(
                (y@, t@),
            ),
            Err(e) => labels_of(views(lines@)) == Err::<(Seq<i8>, Seq<i8>), LabelError>(e),
        },
{
    let ghost s = views(lines@);
    let mut y: Vec<i8> = Vec::new();
    let mut t: Vec<i8> = Vec::new();
    if lines.len() == 0 {
        return Ok((y, t));
    }
    let mut i: usize = 1;
    while i < lines.len()
        invariant
            1 <= i <= lines.len(),
            s == views(lines@),
            labels_of(s.take(i as int)) == Ok::<(Seq<i8>, Seq<i8>), LabelError>((y@, t@)),
        decreases lines.len() - i,
    {
        proof {
            assert(s[i as int] == lines@[i as int]@);
            assert(s.take(i + 1).drop_last() =~= s.take(i as int));
            assert(s.take(i + 1).last() == s[i as int]);
        }
        match read_label(lines[i].as_str(), i) {
            Ok((a, b)) => {
                y.push(a);
                t.push(b);
            },
            Err(e) => {
                proof {
                    lemma_labels_stuck(s, i + 1);
                }
                return Err(e);
            },
        }
        i += 1;
    }
    proof {
        assert(s.take(s.len() as int) =~= s);
    }
    Ok((y, t))
}

/// A text is looked for from the start: the first place where it stands.
pub proof fn lemma_first_text(s: Seq<char>, p: Seq<char>, i: int)
    requires
        0 <= i <= s.len() + 1,
    ensures
        i <= first_text(s, p, i) <= s.len() + 1,
        first_text(s, p, i) <= s.len() ==> occurs_at(s, p, first_text(s, p, i)),
        forall|k: int| i <= k < first_text(s, p, i) ==> !#[trigger] occurs_at(s, p, k),
    decreases s.len() + 1 - i,
{
    if i <= s.len() && !occurs_at(s, p, i) {
        lemma_first_text(s, p, i + 1);
    }
}

/// The preamble of an array file: its text begins after ten bytes in the first version and after
/// twelve in the others, and its length stands before it, the lowest byte first.
pub proof fn lemma_preamble(b: Seq<u8>)
    requires
        b.len() >= 12,
        b[0] == 0x93 && b[1] == 0x4e && b[2] == 0x55 && b[3] == 0x4d && b[4] == 0x50 && b[5]
            == 0x59,
    ensures
        preamble_spec(b) matches Ok(p) && {
            let n = p.header_len as int;
            &&& n % 256 == b[8] && n / 256 % 256 == b[9]
            &&& b[6] == 1 ==> p.header_at == 10 && n < 65536
            &&& b[6] != 1 ==> p.header_at == 12 && n / 65536 % 256 == b[10] && n / 16777216 == b[11]
        },
{
    assert(b.take(6) =~= seq![0x93u8, 0x4eu8, 0x55u8, 0x4du8, 0x50u8, 0x59u8]);
}

/// A file that begins otherwise, or that ends within its preamble, has none.
pub proof fn lemma_no_preamble(b: Seq<u8>, i: int)
    ensures
        b.len() < 10 ==> preamble_spec(b) is Err,
        b.len() < 12 && b[6] != 1 ==> preamble_spec(b) is Err,
        b.len() >= 6 && (b[0] != 0x93 || b[1] != 0x4e || b[2] != 0x55 || b[3] != 0x4d || b[4]
            != 0x50 || b[5] != 0x59) ==> preamble_spec(b) == Err::<Preamble, NpyError>(
            NpyError::BadMagic,
        ),
{
    if b.len() >= 6 && magic(b) {
        let t = b.take(6);
        assert(t[0] == b[0] && t[1] == b[1] && t[2] == b[2] && t[3] == b[3] && t[4] == b[4] && t[5]
            == b[5]);
    }
}

/// The length of an array is the number that stands first in the brackets after its shape.
pub proof fn lemma_shape(h: Seq<char>, at: int, open: int, comma: int, close: int, n: u64)
    requires
        exists|t: int| #[trigger] occurs_at(h, "'<f4'"@, t),
        0 <= at < open < comma <= close < h.len(),
        occurs_at(h, "'shape':"@, at),
        forall|k: int| 0 <= k < at ==> !#[trigger] occurs_at(h, "'shape':"@, k),
        h[open] == '(',
        h[close] == ')',
        forall|k: int| at <= k < open ==> h[k] != '(',
        forall|k: int| at <= k < close ==> h[k] != ')',
        comma < close ==> h[comma] == ',',
        forall|k: int| open < k < comma ==> h[k] != ',',
        trimmed(h.subrange(open + 1, comma)) == crate::text::decimal(n as nat),
    ensures
        shape_spec(h) == Ok::<u64, NpyError>(n),
{
    lemma_first_text(h, "'<f4'"@, 0);
    lemma_first_text(h, "'shape':"@, 0);
    let t = choose|t: int| #[trigger] occurs_at(h, "'<f4'"@, t);
    assert(occurs_at(h, "'<f4'"@, t));
    assert(first_text(h, "'<f4'"@, 0) <= t);
    assert(first_text(h, "'shape':"@, 0) == at);
    crate::text::lemma_first_char(h, '(', at);
    crate::text::lemma_first_char(h, ')', at);
    assert(first_char(h, '(', at) == open);
    assert(first_char(h, ')', at) == close);
    let inside = h.subrange(open + 1, close);
    crate::text::lemma_first_char(inside, ',', 0);
    let c = comma - open - 1;
    assert(first_char(inside, ',', 0) == c) by {
        let f = first_char(inside, ',', 0);
        if f < c {
            assert(inside[f] == h[open + 1 + f]);
        } else if f > c {
            assert(inside[c] == h[comma]);
        }
    }
    assert(inside.take(c) =~= h.subrange(open + 1, comma));
    crate::text::lemma_u64_reads_back(n);
}

/// A word is four bytes, the lowest first.
pub proof fn lemma_word(b: Seq<u8>, i: int)
    ensures
        word_at(b, i) % 256 == b[4 * i],
        word_at(b, i) / 256 % 256 == b[4 * i + 1],
        word_at(b, i) / 65536 % 256 == b[4 * i + 2],
        word_at(b, i) / 16777216 == b[4 * i + 3],
{
}

/// A label is a number of eight bits, with white space around it or not.
pub proof fn lemma_label_value(s: Seq<char>, n: u64)
    ensures
        trimmed(s) == crate::text::decimal(n as nat) ==> i8_value(s) == (if n <= 127 {
            Some(n as i8)
        } else {
            None
        }),
        trimmed(s) == seq!['-'] + crate::text::decimal(n as nat) ==> i8_value(s) == (if n <= 128 {
            Some((0 - n) as i8)
        } else {
            None
        }),
{
    crate::text::lemma_i32_reads_back(n);
}

/// A line of labels is a rating, a comma and a mark; the rating is looked at first.
pub proof fn lemma_label_row(a: Seq<char>, b: Seq<char>, i: usize)
    requires
        !a.contains(','),
    ensures
        label_row(a + seq![','] + b, i as int) == (match (i8_value(a), i8_value(b)) {
            (Some(y), Some(t)) => Ok::<(i8, i8), LabelError>((y, t)),
            (None, _) => Err(LabelError::BadRating(i)),
            (Some(_), None) => Err(LabelError::BadTest(i)),
        }),
        label_row(a, i as int) == Err::<(i8, i8), LabelError>(LabelError::BadRow(i)),
{
    let s = a + seq![','] + b;
    crate::text::lemma_first_char(s, ',', 0);
    crate::text::lemma_first_char(a, ',', 0);
    let k = first_char(s, ',', 0);
    assert(s[a.len() as int] == ',');
    if k < a.len() {
        assert(a[k] == ',');
        assert(a.contains(a[k]));
    }
    let j = first_char(a, ',', 0);
    if j < a.len() {
        assert(a.contains(a[j]));
    }
    assert(s.take(k) =~= a);
    assert(s.skip(k + 1) =~= b);
}

/// The labels are those of the lines after the first, one by one; the first line that is none is the
/// error.
pub proof fn lemma_labels(lines: Seq<Seq<char>>, k: int)
    requires
        1 <= k < lines.len(),
    ensures
        labels_of(lines) matches Ok((y, t)) ==> y.len() == lines.len() - 1 && t.len() == lines.len()
            - 1 && label_row(lines[k], k) == Ok::<(i8, i8), LabelError>((y[k - 1], t[k - 1])),
        label_row(lines[k], k) is Err && (forall|j: int|
            1 <= j < k ==> label_row(#[trigger] lines[j], j) is Ok) ==> (labels_of(lines) matches Err(
            e,
        ) && label_row(lines[k], k) == Err::<(i8, i8), LabelError>(e)),
    decreases lines.len(),
{
    let h = lines.drop_last();
    let n = lines.len() - 1;
    if k < n {
        lemma_labels(h, k);
        assert(h[k] == lines[k]);
        if forall|j: int| 1 <= j < k ==> label_row(#[trigger] lines[j], j) is Ok {
            assert forall|j: int| 1 <= j < k implies label_row(#[trigger] h[j], j) is Ok by {
                assert(h[j] == lines[j]);
                assert(label_row(lines[j], j) is Ok);
            }
        }
    } else {
        lemma_labels_len(h);
        if forall|j: int| 1 <= j < k ==> label_row(#[trigger] lines[j], j) is Ok {
            lemma_labels_read(lines, n);
            assert(lines.take(n) =~= h);
        }
    }
}

proof fn lemma_labels_len(lines: Seq<Seq<char>>)
    ensures
        labels_of(lines) matches Ok((y, t)) ==> y.len() == t.len() && y.len() == (if lines.len()
            == 0 {
            0
        } else {
            lines.len() - 1
        }),
    decreases lines.len(),
{
    if lines.len() > 1 {
        lemma_labels_len(lines.drop_last());
    }
}

proof fn lemma_labels_read(lines: Seq<Seq<char>>, n: int)
    requires
        0 <= n <= lines.len(),
        forall|j: int| 1 <= j < n ==> label_row(#[trigger] lines[j], j) is Ok,
    ensures
        labels_of(lines.take(n)) is Ok,
    decreases n,
{
    if n > 1 {
        lemma_labels_read(lines, n - 1);
        assert(lines.take(n).drop_last() =~= lines.take(n - 1));
        assert(lines.take(n).last() == lines[n - 1]);
        assert(label_row(lines[n - 1], n - 1) is Ok);
    }
}

} // verus!
