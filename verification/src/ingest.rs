//! The assembly side of the ingestion pipeline: reading every well-formed
//! entry header out of an index document, and attaching fetched content to
//! the headers while tolerating individual fetch failures.

use vstd::prelude::*;

use crate::parse::{
    block_delim, header_of, index_marker, index_tail, make_url, normalize_spec, normalize_title,
    parse_rfc, parse_rfc_index, url_of, ParseError,
};
use crate::text::{find_pat, split_on};

verus! {

/// One assembled index entry. `content` is present exactly when the fetch
/// for this entry succeeded; a failed fetch keeps the entry with no content.
pub struct RfcEntry {
    /// Positional identifier of the entry in the source index.
    pub number: i32,
    /// Canonical content URL derived from the identifier.
    pub url: String,
    /// Title with continuation markers replaced by single spaces.
    pub title: String,
    /// Fetched text, or nothing when the fetch failed.
    pub content: Option<String>,
}

/// An entry header before any content has been fetched.
#[derive(Debug)]
pub struct RfcHeader {
    /// Positional identifier of the entry in the source index.
    pub number: i32,
    /// Canonical content URL derived from the identifier.
    pub url: String,
    /// Title with continuation markers replaced by single spaces.
    pub title: String,
}

/// The identifier/raw-title pairs of the well-formed blocks, in order;
/// blocks whose header does not parse are skipped.
pub open spec fn headers_of(blocks: Seq<Seq<char>>) -> Seq<(int, Seq<char>)>
    decreases blocks.len(),
{
    if blocks.len() == 0 {
        seq![]
    } else {
        let rest = headers_of(blocks.subrange(1, blocks.len() as int));
        match header_of(blocks[0]) {
            Some(h) => seq![h] + rest,
            None => rest,
        }
    }
}

/// Zero or one header as a sequence.
pub open spec fn header_seq(h: Option<(int, Seq<char>)>) -> Seq<(int, Seq<char>)> {
    match h {
        Some(p) => seq![p],
        None => seq![],
    }
}

/// The identifier/raw-title pairs a manual reference parse reads straight
/// off the raw text: scan to each block delimiter, parse the text before it
/// as a header, skip what does not parse, and keep the trailing block even
/// when empty.
pub open spec fn reference_entries(s: Seq<char>) -> Seq<(int, Seq<char>)>
    decreases s.len(),
    via reference_entries_decreases
{
    let i = find_pat(s, block_delim());
    if i < 0 {
        header_seq(header_of(s))
    } else {
        header_seq(header_of(s.subrange(0, i))) + reference_entries(
            s.subrange(i + 2, s.len() as int),
        )
    }
}

#[via_fn]
proof fn reference_entries_decreases(s: Seq<char>) {
    crate::text::lemma_find_pat_range(s, block_delim());
}

/// Splitting into blocks and then parsing each block's header recovers
/// exactly what the manual reference parse reads off the raw text: the same
/// identifiers and the same titles, in the same order.
pub proof fn lemma_headers_match_reference(s: Seq<char>)
    ensures
        headers_of(split_on(s, block_delim())) == reference_entries(s),
    decreases s.len(),
{
    let i = find_pat(s, block_delim());
    crate::text::lemma_find_pat_range(s, block_delim());
    let parts = split_on(s, block_delim());
    if i < 0 {
        assert(parts == seq![s]);
        assert(parts[0] == s);
        assert(parts.subrange(1, parts.len() as int) =~= Seq::<Seq<char>>::empty());
        assert(headers_of(Seq::<Seq<char>>::empty()) == Seq::<(int, Seq<char>)>::empty());
        match header_of(s) {
            Some(p) => {
                assert(headers_of(parts) =~= seq![p]);
                assert(reference_entries(s) == seq![p]);
            },
            None => {
                assert(headers_of(parts) =~= Seq::<(int, Seq<char>)>::empty());
                assert(reference_entries(s) =~= Seq::<(int, Seq<char>)>::empty());
            },
        }
    } else {
        let head = s.subrange(0, i);
        let rest = s.subrange(i + 2, s.len() as int);
        lemma_headers_match_reference(rest);
        assert(parts == seq![head] + split_on(rest, block_delim()));
        assert(parts[0] == head);
        assert(parts.subrange(1, parts.len() as int) =~= split_on(rest, block_delim()));
        match header_of(head) {
            Some(p) => {
                assert(headers_of(parts) == seq![p] + headers_of(split_on(rest, block_delim())));
                assert(reference_entries(s) == seq![p] + reference_entries(rest));
            },
            None => {
                assert(headers_of(parts) == headers_of(split_on(rest, block_delim())));
                assert(reference_entries(s) =~= reference_entries(rest));
            },
        }
    }
}

/// True when a planned header carries exactly what a parsed identifier and
/// raw title call for: the identifier itself, its canonical URL, and the
/// normalized title.
pub open spec fn header_planned(h: RfcHeader, p: (int, Seq<char>)) -> bool {
    &&& h.number as int == p.0
    &&& h.number >= 0
    &&& h.url@ == url_of(p.0)
    &&& h.title@ == normalize_spec(p.1)
}

/// The entry headers that ingestion plans to fetch: one per well-formed
/// block of the index, in source order, each with its canonical URL and
/// normalized title.
pub fn index_entry_headers(content: &str) -> (r: Result<Vec<RfcHeader>, ParseError>)
    ensures
        match r {
            Ok(v) => {
                let hs = headers_of(split_on(index_tail(content@), block_delim()));
                &&& find_pat(content@, index_marker()) >= 0
                &&& v@.len() == hs.len()
                &&& forall|i: int|
                    0 <= i < v@.len() ==> #[trigger] header_planned(v@[i], hs[i])
            },
            Err(e) => e == ParseError::IndexMarkerNotFound && find_pat(content@, index_marker())
                < 0,
        },
{
    let blocks = match parse_rfc_index(content) {
        Err(e) => { return Err(e) },
        Ok(b) => b,
    };
    let ghost bs = blocks.deep_view();
    let ghost hs = headers_of(bs);
    let mut v: Vec<RfcHeader> = Vec::new();
    let mut i: usize = 0;
    proof {
        assert(bs.subrange(0, bs.len() as int) =~= bs);
        assert(hs.subrange(0, hs.len() as int) =~= hs);
    }
    while i < blocks.len()
        invariant
            i <= blocks.len(),
            bs == blocks.deep_view(),
            hs == headers_of(bs),
            v@.len() <= hs.len(),
            headers_of(bs.subrange(i as int, bs.len() as int)) == hs.subrange(
                v@.len() as int,
                hs.len() as int,
            ),
            forall|j: int| 0 <= j < v@.len() ==> #[trigger] header_planned(v@[j], hs[j]),
        decreases blocks@.len() - i,
    {
        let ghost suffix = bs.subrange(i as int, bs.len() as int);
        let ghost k = v@.len() as int;
        proof {
            assert(suffix[0] == bs[i as int]);
            assert(suffix.subrange(1, suffix.len() as int) =~= bs.subrange(
                i + 1int,
                bs.len() as int,
            ));
            assert(bs[i as int] == blocks@[i as int].deep_view());
        }
        let block = &blocks[i];
        match parse_rfc(block.as_str()) {
            Ok((num, raw_title)) => {
                proof {
                    assert(header_of(suffix[0]) == Some((num as int, raw_title@)));
                    let rest = headers_of(bs.subrange(i + 1int, bs.len() as int));
                    assert(headers_of(suffix) == seq![(num as int, raw_title@)] + headers_of(
                        suffix.subrange(1, suffix.len() as int),
                    ));
                    assert(headers_of(suffix.subrange(1, suffix.len() as int)) == rest);
                    assert(seq![(num as int, raw_title@)] + rest == hs.subrange(
                        k,
                        hs.len() as int,
                    ));
                    assert((seq![(num as int, raw_title@)] + rest).len() == 1 + rest.len());
                    assert(hs.subrange(k, hs.len() as int).len() == hs.len() - k);
                    assert(k < hs.len());
                    assert(hs.subrange(k, hs.len() as int)[0] == hs[k]);
                    assert(hs[k] == (num as int, raw_title@));
                    assert(rest.len() == hs.len() - k - 1);
                    assert forall|m: int| 0 <= m < rest.len() implies rest[m] == hs[k + 1
                        + m] by {
                        assert(rest[m] == (seq![(num as int, raw_title@)] + rest)[m + 1]);
                        assert(hs.subrange(k, hs.len() as int)[m + 1] == hs[k + 1 + m]);
                    }
                    assert(rest =~= hs.subrange(k + 1, hs.len() as int));
                }
                let url = make_url(num);
                let title = normalize_title(raw_title.as_str());
                let ghost v0 = v@;
                v.push(RfcHeader { number: num, url, title });
                proof {
                    assert(header_planned(v@[k], hs[k]));
                    assert forall|j: int|
                        0 <= j < v@.len() implies #[trigger] header_planned(v@[j], hs[j]) by {
                        if j < k {
                            assert(v@[j] == v0[j]);
                            assert(header_planned(v0[j], hs[j]));
                        }
                    }
                }
            },
            Err(_) => {
                proof {
                    assert(headers_of(suffix) == headers_of(
                        bs.subrange(i + 1int, bs.len() as int),
                    ));
                }
            },
        }
        i += 1;
    }
    proof {
        assert(bs.subrange(i as int, bs.len() as int) =~= Seq::<Seq<char>>::empty());
        assert(headers_of(Seq::<Seq<char>>::empty()) == Seq::<(int, Seq<char>)>::empty());
        assert(hs.subrange(v@.len() as int, hs.len() as int).len() == 0);
        assert(v@.len() == hs.len());
        assert(hs == headers_of(split_on(index_tail(content@), block_delim())));
    }
    Ok(v)
}

/// True when an assembled entry carries exactly a planned header's fields
/// together with the given fetch outcome.
pub open spec fn entry_keeps(e: RfcEntry, h: RfcHeader, c: Option<String>) -> bool {
    &&& e.number == h.number
    &&& e.url@ == h.url@
    &&& e.title@ == h.title@
    &&& e.content == c
}

/// Attaches one fetch outcome to each planned header, in order. An absent
/// outcome never drops the entry: it is kept with `content` empty.
pub fn assemble_entries(headers: Vec<RfcHeader>, contents: Vec<Option<String>>) -> (r: Vec<
    RfcEntry,
>)
    requires
        headers@.len() == contents@.len(),
    ensures
        r@.len() == headers@.len(),
        forall|i: int|
            0 <= i < r@.len() ==> #[trigger] entry_keeps(r@[i], headers@[i], contents@[i]),
{
    let ghost h0 = headers@;
    let ghost c0 = contents@;
    let mut headers = headers;
    let mut contents = contents;
    let mut out: Vec<RfcEntry> = Vec::new();
    while headers.len() > 0
        invariant
            contents@.len() == headers@.len(),
            out@.len() + headers@.len() == h0.len(),
            c0.len() == h0.len(),
            headers@ == h0.subrange(out@.len() as int, h0.len() as int),
            contents@ == c0.subrange(out@.len() as int, c0.len() as int),
            forall|i: int|
                0 <= i < out@.len() ==> #[trigger] entry_keeps(out@[i], h0[i], c0[i]),
        decreases headers@.len(),
    {
        let ghost k = out@.len() as int;
        proof {
            assert(headers@[0] == h0[k]);
            assert(contents@[0] == c0[k]);
        }
        let h = headers.remove(0);
        let c = contents.remove(0);
        let ghost out0 = out@;
        out.push(RfcEntry { number: h.number, url: h.url, title: h.title, content: c });
        proof {
            assert(headers@ =~= h0.subrange(k + 1, h0.len() as int));
            assert(contents@ =~= c0.subrange(k + 1, c0.len() as int));
            assert(out@.len() == k + 1);
            assert(entry_keeps(out@[k], h0[k], c0[k]));
            assert forall|i: int|
                0 <= i < out@.len() implies #[trigger] entry_keeps(out@[i], h0[i], c0[i]) by {
                if i < k {
                    assert(out@[i] == out0[i]);
                    assert(entry_keeps(out0[i], h0[i], c0[i]));
                }
            }
        }
    }
    out
}

/// True when ingestion should emit a progress signal for this identifier:
/// exact multiples of 1000.
pub fn should_report_progress(number: i32) -> (r: bool)
    requires
        number >= 0,
    ensures
        r == (number % 1000 == 0),
{
    number % 1000 == 0
}

} // verus!
