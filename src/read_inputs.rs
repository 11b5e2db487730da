//! Parsing of header-delimited sequence files, given as lines: header lines
//! start with `!`, `@` or `>` and name the record by their first word; the
//! other lines hold its nucleotides.
use crate::dna_read_graph::read_views;
use crate::sequence::chars_of;
use vstd::prelude::*;

verus! {

/// One named record.
pub struct FaEntry {
    pub seg_id: String,
    pub seg_string: String,
}

/// Records in columns: names and sequences, index by index.
pub struct FaColDB {
    pub seg_ids: Vec<String>,
    pub seg_strings: Vec<String>,
}

impl FaEntry {
    /// A record with an empty name and sequence.
    pub fn new() -> (r: Self)
        ensures
            r.seg_id@ == Seq::<char>::empty(),
            r.seg_string@ == Seq::<char>::empty(),
    {
        FaEntry { seg_id: String::new(), seg_string: String::new() }
    }

    /// A record with the given name and sequence.
    pub fn from_read(seg_id: String, seg_string: String) -> (r: Self)
        ensures
            r.seg_id == seg_id,
            r.seg_string == seg_string,
    {
        FaEntry { seg_id, seg_string }
    }
}

pub open spec fn nucleotide_char(x: char) -> bool {
    x == 'A' || x == 'U' || x == 'C' || x == 'G' || x == 'T'
}

pub open spec fn header_char(x: char) -> bool {
    x == '!' || x == '@' || x == '>'
}

/// Whether `x` is one of the characters a sequence line keeps.
#[allow(non_snake_case)]
pub fn is_char_RNA(x: char) -> (r: bool)
    ensures
        r == nucleotide_char(x),
{
    x == 'A' || x == 'U' || x == 'C' || x == 'G' || x == 'T'
}

/// Whether a line starting with `x` is a header.
pub fn is_char_header(x: char) -> (r: bool)
    ensures
        r == header_char(x),
{
    x == '!' || x == '@' || x == '>'
}

/// Unicode white space.
pub open spec fn white_space(c: char) -> bool {
    ||| '\u{9}' <= c <= '\u{d}'
    ||| c == ' '
    ||| c == '\u{85}'
    ||| c == '\u{a0}'
    ||| c == '\u{1680}'
    ||| '\u{2000}' <= c <= '\u{200a}'
    ||| c == '\u{2028}'
    ||| c == '\u{2029}'
    ||| c == '\u{202f}'
    ||| c == '\u{205f}'
    ||| c == '\u{3000}'
}

fn is_white_space(c: char) -> (r: bool)
    ensures
        r == white_space(c),
{
    ('\u{9}' <= c && c <= '\u{d}') || c == ' ' || c == '\u{85}' || c == '\u{a0}' || c == '\u{1680}'
        || ('\u{2000}' <= c && c <= '\u{200a}') || c == '\u{2028}' || c == '\u{2029}' || c
        == '\u{202f}' || c == '\u{205f}' || c == '\u{3000}'
}

/// The nucleotide characters of `s`, in order.
pub open spec fn nucleotides_of(s: Seq<char>) -> Seq<char>
    decreases s.len(),
{
    if s.len() == 0 {
        Seq::empty()
    } else if nucleotide_char(s.last()) {
        nucleotides_of(s.drop_last()).push(s.last())
    } else {
        nucleotides_of(s.drop_last())
    }
}

/// `s` without its header characters.
pub open spec fn without_header_chars(s: Seq<char>) -> Seq<char>
    decreases s.len(),
{
    if s.len() == 0 {
        Seq::empty()
    } else if header_char(s.last()) {
        without_header_chars(s.drop_last())
    } else {
        without_header_chars(s.drop_last()).push(s.last())
    }
}

/// Index of the first character of `s` at or after `i` that is (or, with
/// `white` false, is not) white space; `s.len()` when there is none.
pub open spec fn next_where(s: Seq<char>, i: int, white: bool) -> int
    decreases s.len() - i,
{
    if i >= s.len() {
        s.len() as int
    } else if white_space(s[i]) == white {
        i
    } else {
        next_where(s, i + 1, white)
    }
}

/// The first white-space-delimited word of `s`.
pub open spec fn first_word(s: Seq<char>) -> Seq<char> {
    let start = next_where(s, 0, false);
    s.subrange(start, next_where(s, start, true))
}

/// The name a header line gives: its first word without header characters.
pub open spec fn header_name(line: Seq<char>) -> Seq<char> {
    without_header_chars(first_word(line))
}

pub open spec fn is_header_line(line: Seq<char>) -> bool {
    line.len() > 0 && header_char(line[0])
}

/// Parsing state after some lines: the finished records (names and
/// sequences), the name of the open record and the sequence gathered for it.
pub struct ParseState {
    pub ids: Seq<Seq<char>>,
    pub seqs: Seq<Seq<char>>,
    pub cur_id: Seq<char>,
    pub cur: Seq<char>,
}

/// The state after the first `n` lines. A header closes the open record,
/// when it has gathered any nucleotides, and opens a new one; any other line
/// adds its nucleotides to the open record.
pub open spec fn parse_upto(lines: Seq<Seq<char>>, n: int) -> ParseState
    decreases n,
{
    if n <= 0 {
        ParseState { ids: Seq::empty(), seqs: Seq::empty(), cur_id: Seq::empty(), cur: Seq::empty() }
    } else {
        let st = parse_upto(lines, n - 1);
        let line = lines[n - 1];
        if is_header_line(line) {
            if st.cur.len() > 0 {
                ParseState { ids: st.ids.push(st.cur_id), seqs: st.seqs.push(st.cur), cur_id: header_name(line), cur: Seq::empty() }
            } else {
                ParseState { cur_id: header_name(line), ..st }
            }
        } else {
            ParseState { cur: st.cur + nucleotides_of(line), ..st }
        }
    }
}

/// All records of `lines`, the last one closed at the end if it gathered
/// any nucleotides.
pub open spec fn parse_all(lines: Seq<Seq<char>>) -> ParseState {
    let st = parse_upto(lines, lines.len() as int);
    if st.cur.len() > 0 {
        ParseState { ids: st.ids.push(st.cur_id), seqs: st.seqs.push(st.cur), cur_id: Seq::empty(), cur: Seq::empty() }
    } else {
        st
    }
}

/// Relies on `String`'s `FromIterator<char>`: the string holds the
/// characters in order.
#[verifier::external_body]
fn string_of(v: &Vec<char>) -> (r: String)
    ensures
        r@ == v@,
{
    v.iter().collect()
}

fn nucleotides_in(line: &Vec<char>, out: &mut Vec<char>)
    ensures
        final(out)@ == old(out)@ + nucleotides_of(line@),
{
    let ghost start = out@;
    for i in 0..line.len()
        invariant
            out@ == start + nucleotides_of(line@.take(i as int)),
    {
        proof {
            assert(line@.take(i + 1).drop_last() == line@.take(i as int));
            assert(line@.take(i + 1).last() == line@[i as int]);
        }
        if is_char_RNA(line[i]) {
            out.push(line[i]);
        }
        assert(out@ =~= start + nucleotides_of(line@.take(i + 1)));
    }
    assert(line@.take(line@.len() as int) == line@);
}

fn name_of_header(line: &Vec<char>) -> (r: Vec<char>)
    ensures
        r@ == header_name(line@),
{
    let n = line.len();
    let mut start: usize = 0;
    while start < n && is_white_space(line[start])
        invariant
            n == line@.len(),
            start <= n,
            next_where(line@, 0, false) == next_where(line@, start as int, false),
        decreases n - start,
    {
        start = start + 1;
    }
    let mut end: usize = start;
    while end < n && !is_white_space(line[end])
        invariant
            n == line@.len(),
            start <= end <= n,
            next_where(line@, start as int, true) == next_where(line@, end as int, true),
        decreases n - end,
    {
        end = end + 1;
    }
    let ghost word = line@.subrange(start as int, end as int);
    assert(word == first_word(line@));
    let mut r: Vec<char> = Vec::new();
    for i in start..end
        invariant
            start <= end <= n,
            n == line@.len(),
            word == line@.subrange(start as int, end as int),
            r@ == without_header_chars(word.take(i - start)),
    {
        proof {
            assert(word.take(i - start + 1).drop_last() == word.take(i - start));
            assert(word.take(i - start + 1).last() == line@[i as int]);
        }
        if !is_char_header(line[i]) {
            r.push(line[i]);
        }
        assert(r@ =~= without_header_chars(word.take(i - start + 1)));
    }
    assert(word.take(end - start) == word);
    r
}

/// Parses the lines of a sequence file into named records.
pub fn parse_fa_lines(lines: &Vec<String>) -> (r: FaColDB)
    ensures
        read_views(r.seg_ids@) == parse_all(read_views(lines@)).ids,
        read_views(r.seg_strings@) == parse_all(read_views(lines@)).seqs,
{
    let ghost ls = read_views(lines@);
    let mut ids: Vec<String> = Vec::new();
    let mut segs: Vec<String> = Vec::new();
    let mut cur_id: Vec<char> = Vec::new();
    let mut cur: Vec<char> = Vec::new();
    for i in 0..lines.len()
        invariant
            ls == read_views(lines@),
            read_views(ids@) == parse_upto(ls, i as int).ids,
            read_views(segs@) == parse_upto(ls, i as int).seqs,
            cur_id@ == parse_upto(ls, i as int).cur_id,
            cur@ == parse_upto(ls, i as int).cur,
    {
        let line = chars_of(lines[i].as_str());
        assert(line@ == ls[i as int]);
        if line.len() > 0 && is_char_header(line[0]) {
            if cur.len() > 0 {
                let ghost before_ids = ids@;
                let ghost before_segs = segs@;
                ids.push(string_of(&cur_id));
                segs.push(string_of(&cur));
                assert(read_views(ids@) =~= read_views(before_ids).push(cur_id@));
                assert(read_views(segs@) =~= read_views(before_segs).push(cur@));
            }
            cur_id = name_of_header(&line);
            cur = Vec::new();
        } else {
            nucleotides_in(&line, &mut cur);
        }
    }
    if cur.len() > 0 {
        let ghost before_ids = ids@;
        let ghost before_segs = segs@;
        ids.push(string_of(&cur_id));
        segs.push(string_of(&cur));
        assert(read_views(ids@) =~= read_views(before_ids).push(cur_id@));
        assert(read_views(segs@) =~= read_views(before_segs).push(cur@));
    }
    FaColDB { seg_ids: ids, seg_strings: segs }
}

/// Parses the lines of a sequence file into its sequences alone.
pub fn parse_fq_fasta_lines(lines: &Vec<String>) -> (r: Vec<String>)
    ensures
        read_views(r@) == parse_all(read_views(lines@)).seqs,
{
    let db = parse_fa_lines(lines);
    db.seg_strings
}

/// Parses the lines of a sequence file into named records, one entry each.
pub fn parse_fa_entries(lines: &Vec<String>) -> (r: Vec<FaEntry>)
    ensures
        r@.len() == parse_all(read_views(lines@)).seqs.len(),
        forall|i: int|
            0 <= i < r@.len() ==> {
                &&& (#[trigger] r@[i]).seg_id@ == parse_all(read_views(lines@)).ids[i]
                &&& r@[i].seg_string@ == parse_all(read_views(lines@)).seqs[i]
            },
{
    let db = parse_fa_lines(lines);
    let ghost st = parse_all(read_views(lines@));
    proof {
        lemma_parse_columns(read_views(lines@));
    }
    let FaColDB { seg_ids, seg_strings } = db;
    let mut r: Vec<FaEntry> = Vec::new();
    let n = seg_strings.len();
    assert(read_views(seg_ids@).len() == n);
    for i in 0..n
        invariant
            n == seg_strings@.len(),
            n == seg_ids@.len(),
            read_views(seg_ids@) == st.ids,
            read_views(seg_strings@) == st.seqs,
            r@.len() == i,
            forall|t: int|
                0 <= t < i ==> {
                    &&& (#[trigger] r@[t]).seg_id@ == st.ids[t]
                    &&& r@[t].seg_string@ == st.seqs[t]
                },
    {
        let id = seg_ids[i].clone();
        let sq = seg_strings[i].clone();
        assert(id@ == st.ids[i as int]);
        assert(sq@ == st.seqs[i as int]);
        r.push(FaEntry::from_read(id, sq));
    }
    r
}

/// Names and sequences come in pairs.
pub proof fn lemma_parse_columns(lines: Seq<Seq<char>>)
    ensures
        parse_all(lines).ids.len() == parse_all(lines).seqs.len(),
{
    lemma_parse_upto_columns(lines, lines.len() as int);
}

proof fn lemma_parse_upto_columns(lines: Seq<Seq<char>>, n: int)
    ensures
        parse_upto(lines, n).ids.len() == parse_upto(lines, n).seqs.len(),
    decreases n,
{
    if n > 0 {
        lemma_parse_upto_columns(lines, n - 1);
    }
}

} // verus!
