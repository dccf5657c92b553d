//! The index parser: locating the first entry of a flat-text document index,
//! splitting it into per-entry blocks, and reading an entry's numeric
//! identifier and title out of a block.

use vstd::prelude::*;
use vstd::string::StrSliceExecFns;

use crate::text::{
    find_from, find_pat, lemma_find_pat, lemma_first_match_in_suffix, lemma_no_match_in_suffix,
    match_at, push_char, push_range, split_on,
};

verus! {

/// How parsing an index or an entry fails.
#[derive(Debug, Clone, Copy, PartialEq, Eq, Structural)]
pub enum ParseError {
    /// The index document holds no entry-start marker.
    IndexMarkerNotFound,
    /// An entry block has no space separator or a non-numeric identifier.
    MalformedEntry,
}

/// The literal that marks the first real entry of an index document.
pub open spec fn index_marker() -> Seq<char> {
    seq!['0', '0', '0', '1']
}

/// Two consecutive newlines separate entry blocks.
pub open spec fn block_delim() -> Seq<char> {
    seq!['\n', '\n']
}

/// The single space that separates an entry's identifier from its title.
pub open spec fn space_pat() -> Seq<char> {
    seq![' ']
}

fn marker_vec() -> (v: Vec<char>)
    ensures
        v@ == index_marker(),
{
    let mut v: Vec<char> = Vec::new();
    v.push('0');
    v.push('0');
    v.push('0');
    v.push('1');
    proof {
        assert(v@ =~= index_marker());
    }
    v
}

fn delim_vec() -> (v: Vec<char>)
    ensures
        v@ == block_delim(),
{
    let mut v: Vec<char> = Vec::new();
    v.push('\n');
    v.push('\n');
    proof {
        assert(v@ =~= block_delim());
    }
    v
}

fn space_vec() -> (v: Vec<char>)
    ensures
        v@ == space_pat(),
{
    let mut v: Vec<char> = Vec::new();
    v.push(' ');
    proof {
        assert(v@ =~= space_pat());
    }
    v
}

/// True of a decimal digit character.
pub open spec fn is_digit(c: char) -> bool {
    48 <= c as int <= 57
}

/// True when `s` is a nonempty run of decimal digits.
pub open spec fn is_digits(s: Seq<char>) -> bool {
    s.len() > 0 && forall|i: int| 0 <= i < s.len() ==> is_digit(s[i])
}

/// The value of a run of decimal digits.
pub open spec fn digits_val(s: Seq<char>) -> int
    decreases s.len(),
{
    if s.len() == 0 {
        0
    } else {
        10 * digits_val(s.drop_last()) + (s.last() as int - 48)
    }
}

proof fn lemma_digits_val_nonneg(s: Seq<char>)
    requires
        forall|i: int| 0 <= i < s.len() ==> is_digit(s[i]),
    ensures
        digits_val(s) >= 0,
    decreases s.len(),
{
    if s.len() > 0 {
        lemma_digits_val_nonneg(s.drop_last());
    }
}

/// A digit run is worth at least any of its prefixes.
proof fn lemma_digits_val_prefix_le(s: Seq<char>, j: int)
    requires
        0 <= j <= s.len(),
        forall|i: int| 0 <= i < s.len() ==> is_digit(s[i]),
    ensures
        digits_val(s.subrange(0, j)) <= digits_val(s),
    decreases s.len() - j,
{
    if j < s.len() {
        lemma_digits_val_prefix_le(s, j + 1);
        let p = s.subrange(0, j);
        let q = s.subrange(0, j + 1);
        assert(q.drop_last() =~= p);
        lemma_digits_val_nonneg(p);
    } else {
        assert(s.subrange(0, j) =~= s);
    }
}

/// The identifier and raw title that a well-formed entry block carries:
/// the digits before the first space, and everything after that space.
pub open spec fn header_of(b: Seq<char>) -> Option<(int, Seq<char>)> {
    let sp = find_pat(b, space_pat());
    if sp < 0 {
        None
    } else {
        let num = b.subrange(0, sp);
        let title = b.subrange(sp + 1, b.len() as int);
        if is_digits(num) && digits_val(num) <= i32::MAX as int {
            Some((digits_val(num), title))
        } else {
            None
        }
    }
}

/// Splits an entry block on its first space into a numeric identifier and
/// the remaining raw title text.
pub fn parse_rfc(rfc_content: &str) -> (r: Result<(i32, String), ParseError>)
    ensures
        match r {
            Ok(p) => p.0 >= 0 && header_of(rfc_content@) == Some((p.0 as int, p.1@)),
            Err(e) => e == ParseError::MalformedEntry && header_of(rfc_content@) is None,
        },
{
    let sp_pat = space_vec();
    let n = rfc_content.unicode_len();
    match find_from(rfc_content, &sp_pat, 0) {
        None => {
            proof {
                lemma_find_pat(rfc_content@, space_pat());
                let f = find_pat(rfc_content@, space_pat());
                if f >= 0 {
                    assert(match_at(rfc_content@, space_pat(), f));
                    assert(false);
                }
            }
            Err(ParseError::MalformedEntry)
        },
        Some(sp) => {
            proof {
                lemma_find_pat(rfc_content@, space_pat());
                let f = find_pat(rfc_content@, space_pat());
                assert(match_at(rfc_content@, space_pat(), sp as int));
                if f == -1 {
                    assert(false);
                }
                if f < sp {
                    assert(!match_at(rfc_content@, space_pat(), f));
                    assert(false);
                }
                if f > sp {
                    assert(false);
                }
                assert(f == sp as int);
            }
            let ghost num = rfc_content@.subrange(0, sp as int);
            if sp == 0 {
                return Err(ParseError::MalformedEntry);
            }
            let mut acc: u64 = 0;
            let mut j: usize = 0;
            while j < sp
                invariant
                    j <= sp,
                    1 <= sp,
                    sp + 1 <= n,
                    n == rfc_content@.len(),
                    find_pat(rfc_content@, space_pat()) == sp as int,
                    num == rfc_content@.subrange(0, sp as int),
                    forall|i: int| 0 <= i < j ==> is_digit(rfc_content@[i]),
                    acc == digits_val(rfc_content@.subrange(0, j as int)),
                    acc <= i32::MAX as u64,
                decreases sp - j,
            {
                let c = rfc_content.get_char(j);
                let cu = c as u32;
                if cu < 48 || cu > 57 {
                    proof {
                        assert(!is_digits(num)) by {
                            assert(num[j as int] == rfc_content@[j as int]);
                            assert(!is_digit(num[j as int]));
                        }
                    }
                    return Err(ParseError::MalformedEntry);
                }
                let d = (cu - 48) as u64;
                let acc2 = acc * 10 + d;
                proof {
                    let p = rfc_content@.subrange(0, j as int);
                    let q = rfc_content@.subrange(0, j + 1int);
                    assert(q.drop_last() =~= p);
                }
                if acc2 > i32::MAX as u64 {
                    proof {
                        if is_digits(num) {
                            lemma_digits_val_prefix_le(num, j + 1int);
                            assert(num.subrange(0, j + 1int) =~= rfc_content@.subrange(
                                0,
                                j + 1int,
                            ));
                        }
                    }
                    return Err(ParseError::MalformedEntry);
                }
                acc = acc2;
                j += 1;
            }
            proof {
                assert(is_digits(num)) by {
                    assert forall|i: int| 0 <= i < num.len() implies is_digit(num[i]) by {
                        assert(num[i] == rfc_content@[i]);
                    }
                }
            }
            let title = rfc_content.substring_char(sp + 1, n).to_owned();
            Ok((acc as i32, title))
        },
    }
}

/// The marker that continues a title onto the next line: a newline followed
/// by exactly five spaces.
pub open spec fn continuation_marker() -> Seq<char> {
    seq!['\n', ' ', ' ', ' ', ' ', ' ']
}

fn continuation_vec() -> (v: Vec<char>)
    ensures
        v@ == continuation_marker(),
{
    let mut v: Vec<char> = Vec::new();
    v.push('\n');
    v.push(' ');
    v.push(' ');
    v.push(' ');
    v.push(' ');
    v.push(' ');
    proof {
        assert(v@ =~= continuation_marker());
    }
    v
}

/// A title with every occurrence of the continuation marker replaced by a
/// single space, scanning left to right without overlap.
pub open spec fn normalize_spec(s: Seq<char>) -> Seq<char>
    decreases s.len(),
    via normalize_spec_decreases
{
    let i = find_pat(s, continuation_marker());
    if i < 0 {
        s
    } else {
        s.subrange(0, i) + space_pat() + normalize_spec(
            s.subrange(i + continuation_marker().len() as int, s.len() as int),
        )
    }
}

#[via_fn]
proof fn normalize_spec_decreases(s: Seq<char>) {
    crate::text::lemma_find_pat_range(s, continuation_marker());
}

/// Replaces every continuation marker in a raw title with a single space.
pub fn normalize_title(title: &str) -> (r: String)
    ensures
        r@ == normalize_spec(title@),
{
    let cm = continuation_vec();
    let n = title.unicode_len();
    let mut out = String::new();
    let mut pos: usize = 0;
    proof {
        assert(title@.subrange(0, n as int) =~= title@);
        assert(Seq::<char>::empty() + normalize_spec(title@) =~= normalize_spec(title@));
    }
    loop
        invariant
            pos <= n,
            n == title@.len(),
            cm@ == continuation_marker(),
            normalize_spec(title@) == out@ + normalize_spec(title@.subrange(pos as int, n as int)),
        decreases n - pos,
    {
        let ghost rem = title@.subrange(pos as int, n as int);
        match find_from(title, &cm, pos) {
            Some(i) => {
                proof {
                    lemma_first_match_in_suffix(title@, continuation_marker(), pos as int, i as int);
                    assert(find_pat(rem, continuation_marker()) == i - pos);
                    assert(rem.subrange(0, i - pos) =~= title@.subrange(pos as int, i as int));
                    assert(rem.subrange(i - pos + 6, rem.len() as int) =~= title@.subrange(
                        i + 6int,
                        n as int,
                    ));
                }
                let ghost out0 = out@;
                push_range(&mut out, title, pos, i);
                push_char(&mut out, ' ');
                proof {
                    assert(out@ =~= out0 + rem.subrange(0, i - pos) + space_pat());
                    assert(out0 + normalize_spec(rem) =~= out@ + normalize_spec(
                        title@.subrange(i + 6int, n as int),
                    ));
                }
                pos = i + 6;
            },
            None => {
                proof {
                    lemma_no_match_in_suffix(title@, continuation_marker(), pos as int);
                    assert(find_pat(rem, continuation_marker()) == -1);
                    assert(normalize_spec(rem) == rem);
                }
                push_range(&mut out, title, pos, n);
                return out;
            },
        }
    }
}

/// Normalizing a title that holds no continuation marker anywhere leaves it
/// exactly as it was.
pub proof fn lemma_normalize_identity(t: Seq<char>)
    requires
        forall|j: int| !match_at(t, continuation_marker(), j),
    ensures
        normalize_spec(t) == t,
{
    lemma_find_pat(t, continuation_marker());
    let f = find_pat(t, continuation_marker());
    if f >= 0 {
        assert(match_at(t, continuation_marker(), f));
        assert(false);
    }
}

/// The character for a single decimal digit value.
pub open spec fn digit_char(d: int) -> char
    recommends
        0 <= d <= 9,
{
    ((d + 48) as u8) as char
}

/// The decimal representation of a nonnegative number, most significant
/// digit first and without zero-padding.
pub open spec fn dec_rep(n: int) -> Seq<char>
    recommends
        n >= 0,
    decreases n,
{
    if n < 10 {
        seq![digit_char(n)]
    } else {
        dec_rep(n / 10).push(digit_char(n % 10))
    }
}

/// The fixed host-and-path prefix of every canonical content URL.
pub open spec fn url_prefix() -> Seq<char> {
    "https://www.rfc-editor.org/rfc/rfc"@
}

/// The fixed suffix of every canonical content URL.
pub open spec fn url_suffix() -> Seq<char> {
    ".txt"@
}

/// The canonical content URL for the entry with the given identifier.
pub open spec fn url_of(n: int) -> Seq<char>
    recommends
        n >= 0,
{
    url_prefix() + dec_rep(n) + url_suffix()
}

fn push_digits(out: &mut String, n: u32)
    ensures
        final(out)@ == old(out)@ + dec_rep(n as int),
    decreases n,
{
    if n < 10 {
        push_char(out, (48 + n as u8) as char);
        proof {
            assert(out@ =~= old(out)@ + dec_rep(n as int));
        }
    } else {
        push_digits(out, n / 10);
        push_char(out, (48 + (n % 10) as u8) as char);
        proof {
            assert(out@ =~= old(out)@ + dec_rep(n as int));
        }
    }
}

/// Builds the canonical content URL for an entry identifier.
pub fn make_url(number: i32) -> (r: String)
    requires
        number >= 0,
    ensures
        r@ == url_of(number as int),
{
    let prefix = "https://www.rfc-editor.org/rfc/rfc";
    let suffix = ".txt";
    proof {
        reveal_strlit("https://www.rfc-editor.org/rfc/rfc");
        reveal_strlit(".txt");
    }
    let mut out = String::new();
    let pn = prefix.unicode_len();
    push_range(&mut out, prefix, 0, pn);
    proof {
        assert(prefix@.subrange(0, pn as int) =~= url_prefix());
        assert(Seq::<char>::empty() + url_prefix() =~= url_prefix());
    }
    push_digits(&mut out, number as u32);
    let sn = suffix.unicode_len();
    push_range(&mut out, suffix, 0, sn);
    proof {
        assert(suffix@.subrange(0, sn as int) =~= url_suffix());
        assert(out@ =~= url_of(number as int));
    }
    out
}

/// The tail of the index from the start marker onward, as the parser sees it.
pub open spec fn index_tail(content: Seq<char>) -> Seq<char>
    recommends
        find_pat(content, index_marker()) >= 0,
{
    content.subrange(find_pat(content, index_marker()), content.len() as int)
}

/// Splits the pieces of `s` on the block delimiter.
fn split_blocks(s: &str) -> (blocks: Vec<String>)
    ensures
        blocks.deep_view() == split_on(s@, block_delim()),
{
    let delim = delim_vec();
    let n = s.unicode_len();
    let mut blocks: Vec<String> = Vec::new();
    let mut pos: usize = 0;
    proof {
        assert(blocks.deep_view() =~= Seq::<Seq<char>>::empty());
        assert(s@.subrange(0, n as int) =~= s@);
        assert(Seq::<Seq<char>>::empty() + split_on(s@, block_delim()) =~= split_on(
            s@,
            block_delim(),
        ));
    }
    loop
        invariant
            pos <= n,
            n == s@.len(),
            delim@ == block_delim(),
            split_on(s@, block_delim()) == blocks.deep_view() + split_on(
                s@.subrange(pos as int, n as int),
                block_delim(),
            ),
        decreases n - pos,
    {
        let ghost rem = s@.subrange(pos as int, n as int);
        match find_from(s, &delim, pos) {
            Some(d) => {
                let piece = s.substring_char(pos, d).to_owned();
                proof {
                    lemma_first_match_in_suffix(s@, block_delim(), pos as int, d as int);
                    assert(find_pat(rem, block_delim()) == d - pos);
                    assert(rem.subrange(0, d - pos) =~= s@.subrange(pos as int, d as int));
                    assert(rem.subrange(d - pos + 2, rem.len() as int) =~= s@.subrange(
                        d + 2int,
                        n as int,
                    ));
                    assert(split_on(rem, block_delim()) == seq![piece@] + split_on(
                        s@.subrange(d + 2int, n as int),
                        block_delim(),
                    ));
                }
                let ghost old_blocks = blocks.deep_view();
                blocks.push(piece);
                proof {
                    assert(blocks.deep_view() =~= old_blocks.push(piece@));
                    assert(old_blocks.push(piece@) + split_on(
                        s@.subrange(d + 2int, n as int),
                        block_delim(),
                    ) =~= old_blocks + split_on(rem, block_delim()));
                }
                pos = d + 2;
            },
            None => {
                let piece = s.substring_char(pos, n).to_owned();
                proof {
                    lemma_no_match_in_suffix(s@, block_delim(), pos as int);
                    assert(find_pat(rem, block_delim()) == -1);
                    assert(split_on(rem, block_delim()) == seq![rem]);
                }
                let ghost old_blocks = blocks.deep_view();
                blocks.push(piece);
                proof {
                    assert(blocks.deep_view() =~= old_blocks.push(piece@));
                    assert(old_blocks.push(piece@) =~= old_blocks + split_on(
                        rem,
                        block_delim(),
                    ));
                }
                return blocks;
            },
        }
    }
}

/// Finds the start marker in a raw index document and splits everything from
/// it onward into per-entry blocks, keeping a trailing empty block.
pub fn parse_rfc_index(content: &str) -> (r: Result<Vec<String>, ParseError>)
    ensures
        match r {
            Ok(blocks) => find_pat(content@, index_marker()) >= 0 && blocks.deep_view()
                == split_on(index_tail(content@), block_delim()),
            Err(e) => e == ParseError::IndexMarkerNotFound && find_pat(content@, index_marker())
                < 0,
        },
{
    let marker = marker_vec();
    match find_from(content, &marker, 0) {
        None => {
            proof {
                lemma_find_pat(content@, index_marker());
            }
            Err(ParseError::IndexMarkerNotFound)
        },
        Some(idx) => {
            proof {
                lemma_find_pat(content@, index_marker());
            }
            let n = content.unicode_len();
            let tail = content.substring_char(idx, n);
            let blocks = split_blocks(tail);
            proof {
                assert(tail@ == index_tail(content@));
            }
            Ok(blocks)
        },
    }
}

} // verus!
