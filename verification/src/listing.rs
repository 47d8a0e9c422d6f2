use vstd::prelude::*;
use crate::error::Error;
use crate::text::{append_bytes, has_at, matches_at, views};

verus! {

/// The opening of an anchor: `<a href=`.
pub open spec fn anchor_open() -> Seq<u8> {
    seq![60u8, 97u8, 32u8, 104u8, 114u8, 101u8, 102u8, 61u8]
}

/// The root-relative form of a link, in apostrophes: `'/log/`.
pub open spec fn rooted_prefix() -> Seq<u8> {
    seq![39u8, 47u8, 108u8, 111u8, 103u8, 47u8]
}

/// The quoted form of a link: one double quote.
pub open spec fn quoted_prefix() -> Seq<u8> {
    seq![34u8]
}

/// What follows the date code in the name of a capture: `_packets.vbus`.
pub open spec fn capture_suffix() -> Seq<u8> {
    seq![95u8, 112u8, 97u8, 99u8, 107u8, 101u8, 116u8, 115u8, 46u8, 118u8, 98u8, 117u8, 115u8]
}

/// Where the link of the anchor that opens at `at` begins, for the two
/// accepted forms; the root-relative form is tried first.
pub open spec fn link_start(body: Seq<u8>, at: int) -> Option<int> {
    if matches_at(body, at + 8, rooted_prefix()) {
        Some(at + 14)
    } else if matches_at(body, at + 8, quoted_prefix()) {
        Some(at + 9)
    } else {
        None
    }
}

/// The date code of the capture link that opens at `at`, if one does: an
/// anchor in one of the two forms, eight bytes, then the fixed suffix.
pub open spec fn anchor_code(body: Seq<u8>, at: int) -> Option<Seq<u8>> {
    if !matches_at(body, at, anchor_open()) {
        None
    } else {
        match link_start(body, at) {
            None => None,
            Some(start) => if matches_at(body, start + 8, capture_suffix()) {
                Some(body.subrange(start, start + 8))
            } else {
                None
            },
        }
    }
}

/// The date codes of the capture links that open before position `n`:
/// each code once, at the place of its first link, in the order of the
/// page.
pub open spec fn codes_before(body: Seq<u8>, n: int) -> Seq<Seq<u8>>
    decreases n,
{
    if n <= 0 {
        Seq::empty()
    } else {
        match anchor_code(body, n - 1) {
            Some(code) => if codes_before(body, n - 1).contains(code) {
                codes_before(body, n - 1)
            } else {
                codes_before(body, n - 1).push(code)
            },
            None => codes_before(body, n - 1),
        }
    }
}

/// The date codes that a directory page lists: an ordered set, in which a
/// capture that the page links twice stands once.
pub open spec fn listed_codes(body: Seq<u8>) -> Seq<Seq<u8>> {
    codes_before(body, body.len() as int)
}

fn anchor_open_bytes() -> (r: Vec<u8>)
    ensures
        r@ == anchor_open(),
{
    let r = vec![60u8, 97u8, 32u8, 104u8, 114u8, 101u8, 102u8, 61u8];
    assert(r@ =~= anchor_open());
    r
}

fn rooted_prefix_bytes() -> (r: Vec<u8>)
    ensures
        r@ == rooted_prefix(),
{
    let r = vec![39u8, 47u8, 108u8, 111u8, 103u8, 47u8];
    assert(r@ =~= rooted_prefix());
    r
}

fn quoted_prefix_bytes() -> (r: Vec<u8>)
    ensures
        r@ == quoted_prefix(),
{
    let r = vec![34u8];
    assert(r@ =~= quoted_prefix());
    r
}

/// The bytes `_packets.vbus`.
pub fn capture_suffix_bytes() -> (r: Vec<u8>)
    ensures
        r@ == capture_suffix(),
{
    let r = vec![
        95u8,
        112u8,
        97u8,
        99u8,
        107u8,
        101u8,
        116u8,
        115u8,
        46u8,
        118u8,
        98u8,
        117u8,
        115u8,
    ];
    assert(r@ =~= capture_suffix());
    r
}

/// No code stands twice among the listed codes, and the code of every
/// capture link stands among them.
pub proof fn lemma_codes_before(body: Seq<u8>, n: int)
    ensures
        codes_before(body, n).no_duplicates(),
        forall|at: int|
            0 <= at < n && anchor_code(body, at).is_some() ==> codes_before(body, n).contains(
                #[trigger] anchor_code(body, at).unwrap(),
            ),
        forall|k: int|
            0 <= k < codes_before(body, n).len() ==> (#[trigger] codes_before(body, n)[k]).len()
                == 8,
    decreases n,
{
    if n > 0 {
        lemma_codes_before(body, n - 1);
        let prev = codes_before(body, n - 1);
        let now = codes_before(body, n);
        assert forall|at: int| 0 <= at < n && anchor_code(body, at).is_some() implies now.contains(
            #[trigger] anchor_code(body, at).unwrap(),
        ) by {
            let code = anchor_code(body, at).unwrap();
            if at < n - 1 {
                assert(prev.contains(code));
                let k = choose|k: int| 0 <= k < prev.len() && prev[k] == code;
                assert(now[k] == code);
            } else if prev.contains(code) {
            } else {
                assert(now[prev.len() as int] == code);
            }
        }
    }
}

/// Tests whether two texts are the same.
pub fn same_bytes(a: &[u8], b: &[u8]) -> (r: bool)
    ensures
        r == (a@ == b@),
{
    if a.len() != b.len() {
        return false;
    }
    let r = has_at(a, 0, b);
    assert(a@.subrange(0, a@.len() as int) =~= a@);
    r
}

/// Tests whether a text stands in a list of texts.
pub fn holds_text(list: &Vec<Vec<u8>>, text: &[u8]) -> (r: bool)
    ensures
        r == views(list@).contains(text@),
{
    let mut i: usize = 0;
    while i < list.len()
        invariant
            0 <= i <= list@.len(),
            forall|k: int| 0 <= k < i ==> views(list@)[k] != text@,
        decreases list@.len() - i,
    {
        if same_bytes(list[i].as_slice(), text) {
            assert(views(list@)[i as int] == text@);
            return true;
        }
        i = i + 1;
    }
    false
}

/// Reads the date codes off a directory page. Every anchor in one of the
/// two accepted forms whose link is eight bytes followed by `_packets.vbus`
/// gives those eight bytes; any other anchor is passed over. A code that
/// the page links more than once is listed once, where it came first.
pub fn list_datecodes(body: &[u8]) -> (r: Vec<Vec<u8>>)
    ensures
        views(r@) == listed_codes(body@),
        views(r@).no_duplicates(),
        forall|k: int| 0 <= k < r@.len() ==> (#[trigger] r@[k])@.len() == 8,
{
    let open = anchor_open_bytes();
    let rooted = rooted_prefix_bytes();
    let quoted = quoted_prefix_bytes();
    let suffix = capture_suffix_bytes();
    let mut out: Vec<Vec<u8>> = Vec::new();
    let mut at: usize = 0;
    assert(views(out@) =~= codes_before(body@, 0));
    while at < body.len()
        invariant
            0 <= at <= body@.len(),
            open@ == anchor_open(),
            rooted@ == rooted_prefix(),
            quoted@ == quoted_prefix(),
            suffix@ == capture_suffix(),
            views(out@) == codes_before(body@, at as int),
        decreases body@.len() - at,
    {
        if has_at(body, at, open.as_slice()) {
            // an anchor opens here, so at + 8 <= body.len()
            let after: usize = at + 8;
            let start: Option<usize> = if has_at(body, after, rooted.as_slice()) {
                Some(after + 6)
            } else if has_at(body, after, quoted.as_slice()) {
                Some(after + 1)
            } else {
                None
            };
            if let Some(s) = start {
                if s <= body.len() && body.len() - s >= 8 && has_at(body, s + 8, suffix.as_slice()) {
                    let found = vstd::slice::slice_subrange(body, s, s + 8);
                    if !holds_text(&out, found) {
                        let mut code: Vec<u8> = Vec::new();
                        append_bytes(&mut code, found);
                        assert(code@ =~= body@.subrange(s as int, s + 8));
                        let ghost before = out@;
                        out.push(code);
                        assert(views(out@) =~= views(before).push(code@));
                    }
                }
            }
        }
        at = at + 1;
    }
    proof {
        lemma_codes_before(body@, body@.len() as int);
        assert forall|k: int| 0 <= k < out@.len() implies (#[trigger] out@[k])@.len() == 8 by {
            assert(views(out@)[k] == out@[k]@);
        }
    }
    out
}

/// Reads the answer to the request for the directory page: a failed
/// connection or a status other than success is a transport error, and a
/// page that came gives its date codes.
pub fn read_index(success: bool, body: &[u8]) -> (r: Result<Vec<Vec<u8>>, Error>)
    ensures
        r.is_ok() <==> success,
        r.is_ok() ==> views(r.unwrap()@) == listed_codes(body@),
        r.is_ok() ==> views(r.unwrap()@).no_duplicates(),
        r.is_err() ==> r.unwrap_err() == Error::Transport,
{
    if success {
        Ok(list_datecodes(body))
    } else {
        Err(Error::Transport)
    }
}

} // verus!
