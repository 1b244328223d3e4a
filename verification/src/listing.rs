//! Parsing anchor tags out of listing documents.
//!
//! A listing page is an HTML-like document whose anchor tags carry the data:
//! on the registry's root page the link text is a package name, on a
//! package's page the href is an artifact URL and the link text its
//! filename.  The scanner walks the document: it finds the next `<a`, the
//! next `href="` after it, the closing quote, the tag-closing `>`, and the
//! `</a>`; the bytes between the quotes are the href and the bytes between
//! `>` and `</a>` the link text.  Debug mode truncates the raw, unparsed
//! root document to its first 1000 bytes before parsing; this deliberately
//! shrinks the scanned set and may cut the final tag short.

use vstd::prelude::*;

verus! {

/// Mathematical value of one parsed anchor.
#[verifier::ext_equal]
pub ghost struct AnchorView {
    pub href: Seq<u8>,
    pub text: Seq<u8>,
}

/// One anchor tag: its href and its link text.
pub struct Anchor {
    pub href: Vec<u8>,
    pub text: Vec<u8>,
}

impl View for Anchor {
    type V = AnchorView;

    open spec fn view(&self) -> AnchorView {
        AnchorView { href: self.href@, text: self.text@ }
    }
}

pub open spec fn anchor_views(s: Seq<Anchor>) -> Seq<AnchorView> {
    s.map_values(|a: Anchor| a@)
}

/// `pat` occurs in `s` at position `i`.
pub open spec fn matches_at(s: Seq<u8>, pat: Seq<u8>, i: int) -> bool {
    &&& 0 <= i
    &&& i + pat.len() <= s.len()
    &&& forall|j: int| 0 <= j < pat.len() ==> s[i + j] == pat[j]
}

/// First occurrence of `pat` in `s` at or after `from`.
pub open spec fn spec_find(s: Seq<u8>, pat: Seq<u8>, from: int) -> Option<int>
    decreases s.len() - from when 0 <= from <= s.len()
{
    if from + pat.len() > s.len() {
        None
    } else if matches_at(s, pat, from) {
        Some(from)
    } else {
        spec_find(s, pat, from + 1)
    }
}

pub proof fn lemma_spec_find(s: Seq<u8>, pat: Seq<u8>, from: int)
    requires
        0 <= from <= s.len(),
    ensures
        spec_find(s, pat, from) is Some ==> {
            let i = spec_find(s, pat, from)->Some_0;
            from <= i && matches_at(s, pat, i)
        },
    decreases s.len() - from,
{
    if from + pat.len() > s.len() {
    } else if matches_at(s, pat, from) {
    } else {
        lemma_spec_find(s, pat, from + 1);
    }
}

fn exec_matches_at(s: &Vec<u8>, pat: &Vec<u8>, i: usize) -> (r: bool)
    requires
        i + pat@.len() <= s@.len(),
    ensures
        r == matches_at(s@, pat@, i as int),
{
    let _sl = s.len();
    let mut j: usize = 0;
    while j < pat.len()
        invariant
            0 <= j <= pat@.len(),
            forall|t: int| 0 <= t < j ==> s@[i + t] == pat@[t],
        decreases pat@.len() - j,
    {
        if s[i + j] != pat[j] {
            return false;
        }
        j = j + 1;
    }
    true
}

/// Find the first occurrence of `pat` at or after `from`.
pub fn find_sub(s: &Vec<u8>, pat: &Vec<u8>, from: usize) -> (r: Option<usize>)
    requires
        from <= s@.len(),
    ensures
        match r {
            Some(i) => spec_find(s@, pat@, from as int) == Some(i as int),
            None => spec_find(s@, pat@, from as int) is None,
        },
{
    let mut cur = from;
    loop
        invariant
            from <= cur <= s@.len(),
            spec_find(s@, pat@, from as int) == spec_find(s@, pat@, cur as int),
        decreases s@.len() - cur,
    {
        if pat.len() > s.len() - cur {
            return None;
        }
        if exec_matches_at(s, pat, cur) {
            return Some(cur);
        }
        cur = cur + 1;
    }
}

pub open spec fn pat_open() -> Seq<u8> {
    seq![60u8, 97u8]  // <a
}

pub open spec fn pat_href() -> Seq<u8> {
    seq![104u8, 114u8, 101u8, 102u8, 61u8, 34u8]  // href="
}

pub open spec fn pat_quote() -> Seq<u8> {
    seq![34u8]  // "
}

pub open spec fn pat_gt() -> Seq<u8> {
    seq![62u8]  // >
}

pub open spec fn pat_close() -> Seq<u8> {
    seq![60u8, 47u8, 97u8, 62u8]  // </a>
}

/// All anchors of the document from position `pos` on, in document order.
pub open spec fn spec_anchors(doc: Seq<u8>, pos: int) -> Seq<AnchorView>
    decreases doc.len() - pos when 0 <= pos <= doc.len() via spec_anchors_decreases
{
    match spec_find(doc, pat_open(), pos) {
        None => Seq::empty(),
        Some(a) => match spec_find(doc, pat_href(), a + 2) {
            None => Seq::empty(),
            Some(h) => match spec_find(doc, pat_quote(), h + 6) {
                None => Seq::empty(),
                Some(he) => match spec_find(doc, pat_gt(), he + 1) {
                    None => Seq::empty(),
                    Some(gt) => match spec_find(doc, pat_close(), gt + 1) {
                        None => Seq::empty(),
                        Some(te) => seq![
                            AnchorView {
                                href: doc.subrange(h + 6, he),
                                text: doc.subrange(gt + 1, te),
                            },
                        ] + spec_anchors(doc, te + 4),
                    },
                },
            },
        },
    }
}

#[via_fn]
proof fn spec_anchors_decreases(doc: Seq<u8>, pos: int) {
    if 0 <= pos <= doc.len() {
        lemma_spec_find(doc, pat_open(), pos);
        if spec_find(doc, pat_open(), pos) is Some {
            let a = spec_find(doc, pat_open(), pos)->Some_0;
            lemma_spec_find(doc, pat_href(), a + 2);
            if spec_find(doc, pat_href(), a + 2) is Some {
                let h = spec_find(doc, pat_href(), a + 2)->Some_0;
                lemma_spec_find(doc, pat_quote(), h + 6);
                if spec_find(doc, pat_quote(), h + 6) is Some {
                    let he = spec_find(doc, pat_quote(), h + 6)->Some_0;
                    lemma_spec_find(doc, pat_gt(), he + 1);
                    if spec_find(doc, pat_gt(), he + 1) is Some {
                        let gt = spec_find(doc, pat_gt(), he + 1)->Some_0;
                        lemma_spec_find(doc, pat_close(), gt + 1);
                    }
                }
            }
        }
    }
}

/// Copy `s[from..to]` into a fresh vector.
pub fn copy_range(s: &Vec<u8>, from: usize, to: usize) -> (r: Vec<u8>)
    requires
        from <= to <= s@.len(),
    ensures
        r@ == s@.subrange(from as int, to as int),
{
    let mut r: Vec<u8> = Vec::new();
    let mut t = from;
    while t < to
        invariant
            from <= t <= to,
            r@ == s@.subrange(from as int, t as int),
        decreases to - t,
    {
        proof {
            assert(s@.subrange(from as int, (t + 1) as int) =~= s@.subrange(
                from as int,
                t as int,
            ).push(s@[t as int]));
        }
        r.push(s[t]);
        t = t + 1;
    }
    r
}

/// Parse every anchor tag of a listing document, in document order.
pub fn parse_anchors(doc: &Vec<u8>) -> (r: Vec<Anchor>)
    ensures
        anchor_views(r@) == spec_anchors(doc@, 0),
{
    let pat_open_x: Vec<u8> = vec![60, 97];
    let pat_href_x: Vec<u8> = vec![104, 114, 101, 102, 61, 34];
    let pat_quote_x: Vec<u8> = vec![34];
    let pat_gt_x: Vec<u8> = vec![62];
    let pat_close_x: Vec<u8> = vec![60, 47, 97, 62];
    proof {
        assert(pat_open_x@ =~= pat_open());
        assert(pat_href_x@ =~= pat_href());
        assert(pat_quote_x@ =~= pat_quote());
        assert(pat_gt_x@ =~= pat_gt());
        assert(pat_close_x@ =~= pat_close());
    }
    let _dl = doc.len();
    let mut out: Vec<Anchor> = Vec::new();
    let mut pos: usize = 0;
    loop
        invariant
            0 <= pos <= doc@.len(),
            spec_anchors(doc@, 0) == anchor_views(out@) + spec_anchors(doc@, pos as int),
        decreases doc@.len() - pos,
    {
        let a = match find_sub(doc, &pat_open_x, pos) {
            None => {
                proof {
                    assert(spec_anchors(doc@, pos as int) =~= Seq::<AnchorView>::empty());
                    assert(spec_anchors(doc@, 0) =~= anchor_views(out@));
                }
                return out;
            },
            Some(a) => a,
        };
        proof {
            lemma_spec_find(doc@, pat_open(), pos as int);
        }
        let h = match find_sub(doc, &pat_href_x, a + 2) {
            None => {
                proof {
                    assert(spec_anchors(doc@, pos as int) =~= Seq::<AnchorView>::empty());
                    assert(spec_anchors(doc@, 0) =~= anchor_views(out@));
                }
                return out;
            },
            Some(h) => h,
        };
        proof {
            lemma_spec_find(doc@, pat_href(), (a + 2) as int);
        }
        let he = match find_sub(doc, &pat_quote_x, h + 6) {
            None => {
                proof {
                    assert(spec_anchors(doc@, pos as int) =~= Seq::<AnchorView>::empty());
                    assert(spec_anchors(doc@, 0) =~= anchor_views(out@));
                }
                return out;
            },
            Some(he) => he,
        };
        proof {
            lemma_spec_find(doc@, pat_quote(), (h + 6) as int);
        }
        let gt = match find_sub(doc, &pat_gt_x, he + 1) {
            None => {
                proof {
                    assert(spec_anchors(doc@, pos as int) =~= Seq::<AnchorView>::empty());
                    assert(spec_anchors(doc@, 0) =~= anchor_views(out@));
                }
                return out;
            },
            Some(gt) => gt,
        };
        proof {
            lemma_spec_find(doc@, pat_gt(), (he + 1) as int);
        }
        let te = match find_sub(doc, &pat_close_x, gt + 1) {
            None => {
                proof {
                    assert(spec_anchors(doc@, pos as int) =~= Seq::<AnchorView>::empty());
                    assert(spec_anchors(doc@, 0) =~= anchor_views(out@));
                }
                return out;
            },
            Some(te) => te,
        };
        proof {
            lemma_spec_find(doc@, pat_close(), (gt + 1) as int);
        }
        let href = copy_range(doc, h + 6, he);
        let text = copy_range(doc, gt + 1, te);
        let ghost prev_out = out@;
        out.push(Anchor { href, text });
        proof {
            assert(anchor_views(out@) =~= anchor_views(prev_out).push(
                AnchorView { href: doc@.subrange((h + 6) as int, he as int), text: doc@.subrange((gt + 1) as int, te as int) },
            ));
            assert(spec_anchors(doc@, pos as int) == seq![
                AnchorView { href: doc@.subrange((h + 6) as int, he as int), text: doc@.subrange((gt + 1) as int, te as int) },
            ] + spec_anchors(doc@, (te + 4) as int));
            assert(anchor_views(out@) + spec_anchors(doc@, (te + 4) as int) =~= (anchor_views(
                prev_out,
            ) + spec_anchors(doc@, pos as int)));
        }
        pos = te + 4;
    }
}

/// The root document as parsed: in debug mode only its first 1000 bytes.
pub open spec fn spec_index_doc(doc: Seq<u8>, debug: bool) -> Seq<u8> {
    if debug && doc.len() > 1000 {
        doc.take(1000)
    } else {
        doc
    }
}

/// The package names of the registry's root listing: the link text of every
/// anchor, in document order.
pub open spec fn spec_index_names(doc: Seq<u8>, debug: bool) -> Seq<Seq<u8>> {
    spec_anchors(spec_index_doc(doc, debug), 0).map_values(|a: AnchorView| a.text)
}

pub open spec fn name_views(s: Seq<Vec<u8>>) -> Seq<Seq<u8>> {
    s.map_values(|n: Vec<u8>| n@)
}

/// Parse the registry's root listing into package names, in document order.
/// In debug mode only the first 1000 bytes of the raw document are parsed,
/// intentionally shrinking the scanned set for fast iteration.
pub fn parse_index_names(doc: &Vec<u8>, debug: bool) -> (r: Vec<Vec<u8>>)
    ensures
        name_views(r@) == spec_index_names(doc@, debug),
{
    let parsed = if debug && doc.len() > 1000 {
        copy_range(doc, 0, 1000)
    } else {
        copy_range(doc, 0, doc.len())
    };
    proof {
        assert(doc@.subrange(0, doc@.len() as int) =~= doc@);
        assert(doc@.len() > 1000 ==> doc@.subrange(0, 1000) =~= doc@.take(1000));
        assert(parsed@ == spec_index_doc(doc@, debug));
    }
    let anchors = parse_anchors(&parsed);
    let mut names: Vec<Vec<u8>> = Vec::new();
    let mut i: usize = 0;
    while i < anchors.len()
        invariant
            0 <= i <= anchors@.len(),
            anchor_views(anchors@) == spec_anchors(spec_index_doc(doc@, debug), 0),
            name_views(names@) == anchor_views(anchors@).take(i as int).map_values(
                |a: AnchorView| a.text,
            ),
        decreases anchors@.len() - i,
    {
        let ghost prev = names@;
        let text = copy_range(&anchors[i].text, 0, anchors[i].text.len());
        proof {
            assert(text@ =~= anchors@[i as int].text@);
        }
        names.push(text);
        proof {
            assert(anchor_views(anchors@).take((i + 1) as int) =~= anchor_views(anchors@).take(
                i as int,
            ).push(anchor_views(anchors@)[i as int]));
            assert(name_views(names@) =~= name_views(prev).push(anchors@[i as int].text@));
            assert(anchor_views(anchors@).take((i + 1) as int).map_values(|a: AnchorView| a.text)
                =~= anchor_views(anchors@).take(i as int).map_values(|a: AnchorView| a.text).push(
                anchor_views(anchors@)[i as int].text,
            ));
        }
        i = i + 1;
    }
    proof {
        assert(anchor_views(anchors@).take(anchors@.len() as int) =~= anchor_views(anchors@));
    }
    names
}

} // verus!
