//! URL extraction from free text and from document trees.
//!
//! A candidate URL is an absolute `http` or `https` URL. Free text is
//! scanned for scheme occurrences; each occurrence yields the surrounding
//! run of non-whitespace characters, with trailing punctuation stripped.
//! Duplicates within one extraction are suppressed, keeping first
//! occurrences.

use vstd::prelude::*;
use crate::models::{EditData, EditNote, PayloadNode, node_texts, node_strings};

verus! {

/// The view of each string in a sequence of strings.
pub open spec fn views_of(urls: Seq<String>) -> Seq<Seq<char>> {
    urls.map_values(|u: String| u@)
}

/// Whitespace for the purposes of delimiting a URL inside free text.
pub open spec fn is_space(c: char) -> bool {
    c == ' ' || c == '\t' || c == '\n' || c == '\r'
}

/// Punctuation that is stripped from the tail of a matched URL, so that
/// prose such as "see https://example.com/page." does not leak the final
/// period into the recorded URL.
pub open spec fn is_trailing_punct(c: char) -> bool {
    c == '.' || c == ',' || c == ';' || c == ':' || c == '!' || c == '?' || c == ')' || c == ']'
        || c == '}' || c == '\'' || c == '"'
}

/// The characters `http://` stand at position `i` of `t`.
pub open spec fn http_at(t: Seq<char>, i: int) -> bool {
    &&& 0 <= i
    &&& i + 7 <= t.len()
    &&& t[i] == 'h'
    &&& t[i + 1] == 't'
    &&& t[i + 2] == 't'
    &&& t[i + 3] == 'p'
    &&& t[i + 4] == ':'
    &&& t[i + 5] == '/'
    &&& t[i + 6] == '/'
}

/// The characters `https://` stand at position `i` of `t`.
pub open spec fn https_at(t: Seq<char>, i: int) -> bool {
    &&& 0 <= i
    &&& i + 8 <= t.len()
    &&& t[i] == 'h'
    &&& t[i + 1] == 't'
    &&& t[i + 2] == 't'
    &&& t[i + 3] == 'p'
    &&& t[i + 4] == 's'
    &&& t[i + 5] == ':'
    &&& t[i + 6] == '/'
    &&& t[i + 7] == '/'
}

/// An absolute URL scheme begins at position `i` of `t`.
pub open spec fn scheme_at(t: Seq<char>, i: int) -> bool {
    http_at(t, i) || https_at(t, i)
}

/// A well-formed candidate URL: an `http` or `https` scheme followed by at
/// least one character of host.
pub open spec fn is_candidate_url(u: Seq<char>) -> bool {
    (http_at(u, 0) && u.len() > 7) || (https_at(u, 0) && u.len() > 8)
}

/// The end of the run of non-whitespace characters that starts at `i`.
pub open spec fn run_end(t: Seq<char>, i: int) -> int
    decreases t.len() - i when 0 <= i <= t.len()
{
    if i >= t.len() || is_space(t[i]) {
        i
    } else {
        run_end(t, i + 1)
    }
}

/// `u` without its trailing punctuation characters.
pub open spec fn strip_trailing_punct(u: Seq<char>) -> Seq<char>
    decreases u.len(),
{
    if u.len() > 0 && is_trailing_punct(u.last()) {
        strip_trailing_punct(u.drop_last())
    } else {
        u
    }
}

/// The stripped non-whitespace run that starts at position `i` of `t`.
pub open spec fn match_at(t: Seq<char>, i: int) -> Seq<char> {
    strip_trailing_punct(t.subrange(i, run_end(t, i)))
}

/// All candidate URLs found at or after position `i` of `t`, in order of
/// the position of their scheme, duplicates included.
pub open spec fn found_urls(t: Seq<char>, i: int) -> Seq<Seq<char>>
    decreases t.len() - i when 0 <= i <= t.len()
{
    if i >= t.len() {
        Seq::empty()
    } else {
        let here = if scheme_at(t, i) && is_candidate_url(match_at(t, i)) {
            seq![match_at(t, i)]
        } else {
            Seq::<Seq<char>>::empty()
        };
        here + found_urls(t, i + 1)
    }
}

/// All candidate URLs of a free-text value, duplicates included.
pub open spec fn text_urls(t: Seq<char>) -> Seq<Seq<char>> {
    found_urls(t, 0)
}

/// `s` with every element that repeats an earlier element removed.
pub open spec fn dedup_seq(s: Seq<Seq<char>>) -> Seq<Seq<char>>
    decreases s.len(),
{
    if s.len() == 0 {
        Seq::empty()
    } else {
        let prefix = dedup_seq(s.drop_last());
        if s.drop_last().contains(s.last()) {
            prefix
        } else {
            prefix.push(s.last())
        }
    }
}

/// Deduplication keeps exactly the distinct elements, each once.
pub proof fn lemma_dedup_seq_properties(s: Seq<Seq<char>>)
    ensures
        dedup_seq(s).no_duplicates(),
        forall|x: Seq<char>| dedup_seq(s).contains(x) <==> s.contains(x),
    decreases s.len(),
{
    if s.len() > 0 {
        lemma_dedup_seq_properties(s.drop_last());
        assert forall|x: Seq<char>| s.contains(x) implies s.drop_last().contains(x) || x
            == s.last() by {
            let i = choose|i: int| 0 <= i < s.len() && s[i] == x;
            if i < s.len() - 1 {
                assert(s.drop_last()[i] == x);
            }
        }
        assert forall|x: Seq<char>| s.drop_last().contains(x) implies s.contains(x) by {
            let i = choose|i: int| 0 <= i < s.drop_last().len() && s.drop_last()[i] == x;
            assert(s[i] == x);
        }
        assert(s[s.len() - 1] == s.last());
        assert(s.contains(s.last()));
        let prefix = dedup_seq(s.drop_last());
        if !s.drop_last().contains(s.last()) {
            let d = prefix.push(s.last());
            assert(dedup_seq(s) == d);
            assert forall|a: int, b: int| 0 <= a < b < d.len() implies d[a] != d[b] by {
                if b < prefix.len() {
                } else {
                    assert(d[b] == s.last());
                    assert(d[a] == prefix[a]);
                    assert(prefix.contains(prefix[a]));
                    assert(prefix[a] != s.last());
                }
            }
            assert forall|x: Seq<char>| d.contains(x) implies prefix.contains(x) || x
                == s.last() by {
                let i = choose|i: int| 0 <= i < d.len() && d[i] == x;
                if i < prefix.len() {
                    assert(prefix[i] == x);
                }
            }
            assert forall|x: Seq<char>| prefix.contains(x) implies d.contains(x) by {
                let i = choose|i: int| 0 <= i < prefix.len() && prefix[i] == x;
                assert(d[i] == x);
            }
            assert(d[d.len() - 1] == s.last());
            assert(d.contains(s.last()));
        } else {
            assert(dedup_seq(s) == prefix);
        }
    }
}

/// Appending one element either changes nothing or appends it, according
/// to whether it repeats an earlier element.
pub proof fn lemma_dedup_seq_push(s: Seq<Seq<char>>, x: Seq<char>)
    ensures
        dedup_seq(s.push(x)) == if s.contains(x) {
            dedup_seq(s)
        } else {
            dedup_seq(s).push(x)
        },
{
    assert(s.push(x).drop_last() =~= s);
    assert(s.push(x).last() == x);
}

/// Whitespace test for one character.
fn is_space_char(c: char) -> (r: bool)
    ensures
        r == is_space(c),
{
    c == ' ' || c == '\t' || c == '\n' || c == '\r'
}

/// Trailing-punctuation test for one character.
fn is_punct_char(c: char) -> (r: bool)
    ensures
        r == is_trailing_punct(c),
{
    c == '.' || c == ',' || c == ';' || c == ':' || c == '!' || c == '?' || c == ')' || c == ']'
        || c == '}' || c == '\'' || c == '"'
}

/// The length of the URL scheme standing at position `i` of `t`: 7 for
/// `http://`, 8 for `https://`, 0 when neither stands there.
fn match_scheme(t: &str, i: usize) -> (r: usize)
    requires
        i < t@.len(),
    ensures
        r == 0 || r == 7 || r == 8,
        (r != 0) == scheme_at(t@, i as int),
        (r == 7) == http_at(t@, i as int),
        (r == 8) == https_at(t@, i as int),
        r != 0 ==> i + r <= t@.len(),
{
    let n = t.unicode_len();
    if n - i >= 7 && t.get_char(i) == 'h' && t.get_char(i + 1) == 't' && t.get_char(i + 2) == 't'
        && t.get_char(i + 3) == 'p' {
        if t.get_char(i + 4) == ':' && t.get_char(i + 5) == '/' && t.get_char(i + 6) == '/' {
            return 7;
        }
        if n - i >= 8 && t.get_char(i + 4) == 's' && t.get_char(i + 5) == ':' && t.get_char(
            i + 6,
        ) == '/' && t.get_char(i + 7) == '/' {
            return 8;
        }
    }
    0
}

/// Whether `u` is a well-formed candidate URL.
pub fn is_url(u: &str) -> (r: bool)
    ensures
        r == is_candidate_url(u@),
{
    let n = u.unicode_len();
    if n == 0 {
        return false;
    }
    let s = match_scheme(u, 0);
    s != 0 && n > s
}

/// Whether some string of `urls` equals `cand`.
fn contains_string(urls: &Vec<String>, cand: &String) -> (r: bool)
    ensures
        r == views_of(urls@).contains(cand@),
{
    let mut k: usize = 0;
    while k < urls.len()
        invariant
            k <= urls.len(),
            forall|q: int| 0 <= q < k ==> urls@[q]@ != cand@,
        decreases urls.len() - k,
    {
        if urls[k] == *cand {
            proof {
                assert(views_of(urls@)[k as int] == cand@);
            }
            return true;
        }
        k += 1;
    }
    proof {
        assert forall|q: int| 0 <= q < views_of(urls@).len() implies #[trigger] views_of(urls@)[q]
            != cand@ by {
            assert(urls@[q]@ != cand@);
        }
    }
    false
}

/// Scans `t` and appends each candidate URL not seen before to `urls`.
/// `raw` is the sequence of matches that produced the entries already in
/// `urls`.
fn scan_append(t: &str, urls: &mut Vec<String>, Ghost(raw): Ghost<Seq<Seq<char>>>)
    requires
        views_of(old(urls)@) == dedup_seq(raw),
    ensures
        views_of(final(urls)@) == dedup_seq(raw + text_urls(t@)),
{
    let n = t.unicode_len();
    let ghost mut acc: Seq<Seq<char>> = raw;
    let mut i: usize = 0;
    proof {
        assert(raw + found_urls(t@, 0) == acc + found_urls(t@, i as int));
    }
    while i < n
        invariant
            i <= n,
            n == t@.len(),
            views_of(urls@) == dedup_seq(acc),
            raw + found_urls(t@, 0) == acc + found_urls(t@, i as int),
        decreases n - i,
    {
        let s = match_scheme(t, i);
        if s == 0 {
            proof {
                assert(found_urls(t@, i as int) == Seq::<Seq<char>>::empty() + found_urls(
                    t@,
                    i as int + 1,
                ));
                assert(Seq::<Seq<char>>::empty() + found_urls(t@, i as int + 1) =~= found_urls(
                    t@,
                    i as int + 1,
                ));
            }
        } else {
            // end of the non-whitespace run that starts at i
            let mut j: usize = i;
            while j < n && !is_space_char(t.get_char(j))
                invariant
                    i <= j <= n,
                    n == t@.len(),
                    run_end(t@, i as int) == run_end(t@, j as int),
                decreases n - j,
            {
                j += 1;
            }
            proof {
                assert(run_end(t@, j as int) == j as int);
                assert(run_end(t@, i as int) == j as int);
            }
            // strip trailing punctuation from the run
            let mut m: usize = j;
            while m > i && is_punct_char(t.get_char(m - 1))
                invariant
                    i <= m <= j <= n,
                    n == t@.len(),
                    strip_trailing_punct(t@.subrange(i as int, j as int)) == strip_trailing_punct(
                        t@.subrange(i as int, m as int),
                    ),
                decreases m,
            {
                proof {
                    let u = t@.subrange(i as int, m as int);
                    assert(u.last() == t@[m as int - 1]);
                    assert(u.drop_last() =~= t@.subrange(i as int, m as int - 1));
                }
                m -= 1;
            }
            proof {
                let u = t@.subrange(i as int, m as int);
                if m > i {
                    assert(u.last() == t@[m as int - 1]);
                }
                assert(strip_trailing_punct(u) == u);
                assert(match_at(t@, i as int) == t@.subrange(i as int, m as int));
            }
            let sub = t.substring_char(i, m);
            let ghost acc0 = acc;
            let ghost here: Seq<Seq<char>>;
            if is_url(sub) {
                proof {
                    here = seq![match_at(t@, i as int)];
                }
                let cand = String::from_str(sub);
                if !contains_string(urls, &cand) {
                    proof {
                        lemma_dedup_seq_properties(acc0);
                        assert(!acc0.contains(sub@));
                        lemma_dedup_seq_push(acc0, sub@);
                    }
                    urls.push(cand);
                    proof {
                        assert(views_of(urls@) =~= dedup_seq(acc0).push(sub@));
                    }
                } else {
                    proof {
                        lemma_dedup_seq_properties(acc0);
                        assert(acc0.contains(sub@));
                        lemma_dedup_seq_push(acc0, sub@);
                    }
                }
                proof {
                    assert(acc0.push(sub@) =~= acc0 + here);
                    acc = acc0 + here;
                }
            } else {
                proof {
                    here = Seq::<Seq<char>>::empty();
                    acc = acc0 + here;
                    assert(acc =~= acc0);
                }
            }
            proof {
                assert(found_urls(t@, i as int) == here + found_urls(t@, i as int + 1));
                assert(acc0 + (here + found_urls(t@, i as int + 1)) =~= (acc0 + here) + found_urls(
                    t@,
                    i as int + 1,
                ));
            }
        }
        i += 1;
    }
    proof {
        assert(found_urls(t@, n as int) == Seq::<Seq<char>>::empty());
        assert(acc + found_urls(t@, n as int) =~= acc);
        assert(acc == raw + text_urls(t@));
    }
}

/// Extracts every candidate URL from free text, first occurrences kept,
/// duplicates suppressed.
pub fn extract_urls_from_text(t: &str) -> (urls: Vec<String>)
    ensures
        views_of(urls@) == dedup_seq(text_urls(t@)),
        views_of(urls@).no_duplicates(),
        forall|x: Seq<char>| views_of(urls@).contains(x) <==> text_urls(t@).contains(x),
{
    let mut urls: Vec<String> = Vec::new();
    proof {
        assert(views_of(urls@) =~= dedup_seq(Seq::<Seq<char>>::empty()));
    }
    scan_append(t, &mut urls, Ghost(Seq::empty()));
    proof {
        assert(Seq::<Seq<char>>::empty() + text_urls(t@) =~= text_urls(t@));
        lemma_dedup_seq_properties(text_urls(t@));
    }
    urls
}

/// All candidate URLs of every string value in `ts`, in order, duplicates
/// included.
pub open spec fn texts_urls(ts: Seq<Seq<char>>) -> Seq<Seq<char>>
    decreases ts.len(),
{
    if ts.len() == 0 {
        Seq::empty()
    } else {
        texts_urls(ts.drop_last()) + text_urls(ts.last())
    }
}

/// All candidate URLs of the string values of the payload tree `n`,
/// duplicates included.
pub open spec fn payload_urls(n: PayloadNode) -> Seq<Seq<char>> {
    texts_urls(node_texts(n))
}

/// Extracts every candidate URL found in the string values of the row's
/// payload tree, duplicates suppressed. A payload without string values
/// yields no candidates; this is not an error.
pub fn extract_from_payload(row: &EditData) -> (urls: Vec<String>)
    ensures
        views_of(urls@) == dedup_seq(payload_urls(row.data)),
        views_of(urls@).no_duplicates(),
        forall|x: Seq<char>| views_of(urls@).contains(x) <==> payload_urls(row.data).contains(x),
{
    let texts = node_strings(&row.data);
    let ghost ts = views_of(texts@);
    let mut urls: Vec<String> = Vec::new();
    let ghost mut raw: Seq<Seq<char>> = Seq::empty();
    let mut ti: usize = 0;
    proof {
        assert(views_of(urls@) =~= dedup_seq(raw));
        assert(ts.take(0) =~= Seq::<Seq<char>>::empty());
    }
    while ti < texts.len()
        invariant
            ti <= texts.len(),
            ts == views_of(texts@),
            ts.len() == texts.len(),
            views_of(urls@) == dedup_seq(raw),
            raw == texts_urls(ts.take(ti as int)),
        decreases texts.len() - ti,
    {
        proof {
            assert(ts[ti as int] == texts@[ti as int]@);
        }
        scan_append(texts[ti].as_str(), &mut urls, Ghost(raw));
        proof {
            assert(ts.take(ti as int + 1).drop_last() =~= ts.take(ti as int));
            assert(ts.take(ti as int + 1).last() == ts[ti as int]);
            assert(texts_urls(ts.take(ti as int + 1)) == raw + text_urls(ts[ti as int]));
            raw = raw + text_urls(ts[ti as int]);
        }
        ti += 1;
    }
    proof {
        assert(ts.take(texts@.len() as int) =~= ts);
        assert(raw == payload_urls(row.data));
        lemma_dedup_seq_properties(payload_urls(row.data));
    }
    urls
}

/// Extracts every candidate URL from the free text of an edit note,
/// trailing punctuation stripped, duplicates suppressed. Empty or
/// whitespace-only text yields no candidates.
pub fn extract_from_note(row: &EditNote) -> (urls: Vec<String>)
    ensures
        views_of(urls@) == dedup_seq(text_urls(row.text@)),
        views_of(urls@).no_duplicates(),
        forall|x: Seq<char>| views_of(urls@).contains(x) <==> text_urls(row.text@).contains(x),
{
    extract_urls_from_text(row.text.as_str())
}

} // verus!
