//! The extractor: scan the raw document text for announcement blocks.
//!
//! An announcement block is an emphasized fragment (`<strong ...>` up to its
//! matching `</strong>`). A *caption* block holds, directly between the open
//! tag and the close tag, text without further markup that mentions the
//! `Version` keyword followed by a four-digit year and, later, another
//! four-digit group. A *link* block holds an embedded `href="..."` reference
//! whose target carries one of the allow-listed installer extensions
//! (`.zip`, `.exe`, `.msi`). Both scans run left to right over the whole
//! document and return their matches in document order.
use crate::errors::PipelineError;
use crate::text::find_from;
use crate::text::find_in;
use crate::text::is_digit;
use crate::text::lemma_find_from;
use crate::text::match_at;
use crate::text::matches_at;
use crate::text::trim;
use crate::text::trim_str;
use crate::views_of;
use vstd::prelude::*;

verus! {

pub open spec fn strong_open() -> Seq<char> {
    "<strong"@
}

pub open spec fn strong_close() -> Seq<char> {
    "</strong>"@
}

pub open spec fn tag_end() -> Seq<char> {
    ">"@
}

pub open spec fn tag_start() -> Seq<char> {
    "<"@
}

pub open spec fn href_kw() -> Seq<char> {
    "href=\""@
}

pub open spec fn quote_mark() -> Seq<char> {
    "\""@
}

pub open spec fn version_kw() -> Seq<char> {
    "Version "@
}

/// Four ASCII digits at position `p` of `t`.
pub open spec fn four_digits_at(t: Seq<char>, p: int) -> bool {
    &&& p >= 0
    &&& p + 4 <= t.len()
    &&& is_digit(t[p])
    &&& is_digit(t[p + 1])
    &&& is_digit(t[p + 2])
    &&& is_digit(t[p + 3])
}

/// The `Version` keyword followed immediately by a four-digit year at `p`.
pub open spec fn version_year_at(t: Seq<char>, p: int) -> bool {
    matches_at(t, p, version_kw()) && four_digits_at(t, p + version_kw().len())
}

/// The caption content filter: a `Version <year>` mention with a later
/// four-digit group (the announcement date's year).
pub open spec fn caption_ok(t: Seq<char>) -> bool {
    exists|p: int, q: int|
        #![trigger version_year_at(t, p), four_digits_at(t, q)]
        version_year_at(t, p) && p + 12 <= q && four_digits_at(t, q)
}

/// `u` ends with `suf`.
pub open spec fn ends_with(u: Seq<char>, suf: Seq<char>) -> bool {
    u.len() >= suf.len() && u.subrange(u.len() - suf.len(), u.len() as int) == suf
}

/// The fixed allow-list of installer extensions.
pub open spec fn allowed_ext(u: Seq<char>) -> bool {
    ends_with(u, ".zip"@) || ends_with(u, ".exe"@) || ends_with(u, ".msi"@)
}

/// The captions of all caption blocks at or after `i`, in document order,
/// trimmed of surrounding whitespace.
pub open spec fn scan_captions(s: Seq<char>, i: int) -> Seq<Seq<char>>
    decreases s.len() - i,
        via scan_captions_decreases
{
    let j = find_from(s, i, strong_open());
    if j < 0 {
        Seq::empty()
    } else {
        let g = find_from(s, j + 7, tag_end());
        if g < 0 {
            Seq::empty()
        } else {
            let h = find_from(s, g + 1, tag_start());
            if h < 0 {
                Seq::empty()
            } else if matches_at(s, h, strong_close()) && caption_ok(s.subrange(g + 1, h)) {
                seq![trim(s.subrange(g + 1, h))] + scan_captions(s, h + 9)
            } else {
                scan_captions(s, j + 1)
            }
        }
    }
}

#[via_fn]
proof fn scan_captions_decreases(s: Seq<char>, i: int) {
    reveal_strlit("<strong");
    reveal_strlit(">");
    reveal_strlit("<");
    reveal_strlit("</strong>");
    if i >= 0 {
        let j = find_from(s, i, strong_open());
        lemma_find_from(s, i, strong_open());
        if j >= 0 {
            let g = find_from(s, j + 7, tag_end());
            lemma_find_from(s, j + 7, tag_end());
            if g >= 0 {
                lemma_find_from(s, g + 1, tag_start());
            }
        }
    }
}

/// The first installer link inside `s[p..end)`: the start of the quoted
/// target of the first `href="` whose target, read up to the closing quote
/// inside the window, carries an allow-listed extension; -1 if there is none.
pub open spec fn find_link(s: Seq<char>, p: int, end: int) -> int
    decreases end - p,
        via find_link_decreases
{
    let hq = find_from(s, p, href_kw());
    if hq < 0 || hq + 6 >= end {
        -1
    } else {
        let q2 = find_from(s, hq + 6, quote_mark());
        if q2 < 0 || q2 >= end {
            -1
        } else if allowed_ext(s.subrange(hq + 6, q2)) {
            hq + 6
        } else {
            find_link(s, hq + 6, end)
        }
    }
}

#[via_fn]
proof fn find_link_decreases(s: Seq<char>, p: int, end: int) {
    reveal_strlit("href=\"");
    if p >= 0 {
        lemma_find_from(s, p, href_kw());
    }
}

/// The installer links of all link blocks at or after `i`, in document
/// order, trimmed of surrounding whitespace.
pub open spec fn scan_links(s: Seq<char>, i: int) -> Seq<Seq<char>>
    decreases s.len() - i,
        via scan_links_decreases
{
    let j = find_from(s, i, strong_open());
    if j < 0 {
        Seq::empty()
    } else {
        let g = find_from(s, j + 7, tag_end());
        if g < 0 {
            Seq::empty()
        } else {
            let e = find_from(s, g + 1, strong_close());
            if e < 0 {
                Seq::empty()
            } else {
                let a = find_link(s, g + 1, e);
                if a < 0 {
                    scan_links(s, j + 1)
                } else {
                    let q2 = find_from(s, a, quote_mark());
                    seq![trim(s.subrange(a, q2))] + scan_links(s, e + 9)
                }
            }
        }
    }
}

#[via_fn]
proof fn scan_links_decreases(s: Seq<char>, i: int) {
    reveal_strlit("<strong");
    reveal_strlit(">");
    reveal_strlit("</strong>");
    if i >= 0 {
        let j = find_from(s, i, strong_open());
        lemma_find_from(s, i, strong_open());
        if j >= 0 {
            let g = find_from(s, j + 7, tag_end());
            lemma_find_from(s, j + 7, tag_end());
            if g >= 0 {
                lemma_find_from(s, g + 1, strong_close());
            }
        }
    }
}

/// Four ASCII digits at position `q` of `t`?
pub fn four_digits_check(t: &str, q: usize) -> (b: bool)
    ensures
        b == four_digits_at(t@, q as int),
{
    let n = t.unicode_len();
    if q > n || n - q < 4 {
        return false;
    }
    let c0 = t.get_char(q) as u32;
    let c1 = t.get_char(q + 1) as u32;
    let c2 = t.get_char(q + 2) as u32;
    let c3 = t.get_char(q + 3) as u32;
    48 <= c0 && c0 <= 57 && 48 <= c1 && c1 <= 57 && 48 <= c2 && c2 <= 57 && 48 <= c3 && c3 <= 57
}

/// Does `t` pass the caption content filter?
pub fn caption_check(t: &str) -> (b: bool)
    ensures
        b == caption_ok(t@),
{
    proof {
        reveal_strlit("Version ");
    }
    let n = t.unicode_len();
    let mut p: usize = 0;
    let mut fp: usize = 0;
    let mut have: bool = false;
    loop
        invariant_except_break
            n == t@.len(),
            !have,
            forall|k: int| 0 <= k < p ==> !version_year_at(t@, k),
        ensures
            n == t@.len(),
            have ==> version_year_at(t@, fp as int) && fp + 12 <= n && forall|k: int|
                0 <= k < fp ==> !version_year_at(t@, k),
            !have ==> forall|k: int| 0 <= k ==> !version_year_at(t@, k),
        decreases n + 1 - p,
    {
        proof {
            reveal_strlit("Version ");
        }
        match find_in(t, p, "Version ") {
            None => {
                proof {
                    reveal_strlit("Version ");
                    lemma_find_from(t@, p as int, version_kw());
                    assert forall|k: int| 0 <= k implies !version_year_at(t@, k) by {
                        if k >= p {
                            assert(!matches_at(t@, k, version_kw()));
                        }
                    }
                }
                break ;
            },
            Some(j) => {
                proof {
                    reveal_strlit("Version ");
                    lemma_find_from(t@, p as int, version_kw());
                }
                if four_digits_check(t, j + 8) {
                    fp = j;
                    have = true;
                    proof {
                        assert(version_year_at(t@, j as int));
                        assert forall|k: int| 0 <= k < j implies !version_year_at(t@, k) by {
                            if k >= p {
                                assert(!matches_at(t@, k, version_kw()));
                            }
                        }
                    }
                    break ;
                } else {
                    proof {
                        assert(!version_year_at(t@, j as int));
                        assert forall|k: int| 0 <= k < j + 1 implies !version_year_at(t@, k) by {
                            if k >= p && k < j {
                                assert(!matches_at(t@, k, version_kw()));
                            }
                        }
                    }
                    p = j + 1;
                }
            },
        }
    }
    if !have {
        proof {
            assert(!caption_ok(t@)) by {
                if caption_ok(t@) {
                    let (p0, q0) = choose|p0: int, q0: int|
                        #![trigger version_year_at(t@, p0), four_digits_at(t@, q0)]
                        version_year_at(t@, p0) && p0 + 12 <= q0 && four_digits_at(t@, q0);
                    assert(!version_year_at(t@, p0));
                }
            }
        }
        return false;
    }
    let mut q: usize = fp + 12;
    loop
        invariant
            n == t@.len(),
            fp + 12 <= q,
            version_year_at(t@, fp as int),
            forall|k: int| 0 <= k < fp ==> !version_year_at(t@, k),
            forall|k: int| fp + 12 <= k < q ==> !four_digits_at(t@, k),
        ensures
            version_year_at(t@, fp as int),
            forall|k: int| 0 <= k < fp ==> !version_year_at(t@, k),
            forall|k: int| fp + 12 <= k ==> !four_digits_at(t@, k),
        decreases n + 5 - q,
    {
        if q > n || n - q < 4 {
            proof {
                assert forall|k: int| fp + 12 <= k implies !four_digits_at(t@, k) by {
                    if k >= q {
                        assert(k + 4 > n);
                    }
                }
            }
            break ;
        }
        if four_digits_check(t, q) {
            proof {
                assert(version_year_at(t@, fp as int) && fp + 12 <= q as int && four_digits_at(
                    t@,
                    q as int,
                ));
            }
            return true;
        }
        q += 1;
    }
    proof {
        assert(!caption_ok(t@)) by {
            if caption_ok(t@) {
                let (p0, q0) = choose|p0: int, q0: int|
                    #![trigger version_year_at(t@, p0), four_digits_at(t@, q0)]
                    version_year_at(t@, p0) && p0 + 12 <= q0 && four_digits_at(t@, q0);
                assert(p0 >= fp);
                assert(q0 >= fp + 12);
                assert(!four_digits_at(t@, q0));
            }
        }
    }
    false
}

/// Does `u` end with one of the allow-listed installer extensions?
pub fn has_allowed_ext(u: &str) -> (b: bool)
    ensures
        b == allowed_ext(u@),
{
    proof {
        reveal_strlit(".zip");
        reveal_strlit(".exe");
        reveal_strlit(".msi");
    }
    let n = u.unicode_len();
    if n < 4 {
        return false;
    }
    let z = match_at(u, n - 4, ".zip");
    let e = match_at(u, n - 4, ".exe");
    let m = match_at(u, n - 4, ".msi");
    proof {
        assert(matches_at(u@, n - 4, ".zip"@) == ends_with(u@, ".zip"@));
        assert(matches_at(u@, n - 4, ".exe"@) == ends_with(u@, ".exe"@));
        assert(matches_at(u@, n - 4, ".msi"@) == ends_with(u@, ".msi"@));
    }
    z || e || m
}

/// The first installer link inside `s[p..end)`, as its target's bounds.
pub fn find_link_at(s: &str, p: usize, end: usize) -> (r: Option<(usize, usize)>)
    requires
        end <= s@.len(),
    ensures
        match r {
            Some(b) => find_link(s@, p as int, end as int) == b.0 as int && b.1 as int == find_from(
                s@,
                b.0 as int,
                quote_mark(),
            ) && b.0 <= b.1 && b.1 < end,
            None => find_link(s@, p as int, end as int) == -1,
        },
    decreases end - p,
{
    proof {
        reveal_strlit("href=\"");
        reveal_strlit("\"");
    }
    let n = s.unicode_len();
    match find_in(s, p, "href=\"") {
        None => None,
        Some(hq) => {
            proof {
                lemma_find_from(s@, p as int, href_kw());
            }
            if hq + 6 >= end {
                None
            } else {
                match find_in(s, hq + 6, "\"") {
                    None => None,
                    Some(q2) => {
                        if q2 >= end {
                            None
                        } else {
                            proof {
                                lemma_find_from(s@, hq + 6, quote_mark());
                            }
                            let u = s.substring_char(hq + 6, q2);
                            if has_allowed_ext(u) {
                                Some((hq + 6, q2))
                            } else {
                                proof {
                                    lemma_find_from(s@, p as int, href_kw());
                                }
                                find_link_at(s, hq + 6, end)
                            }
                        }
                    },
                }
            }
        },
    }
}

/// All trimmed captions of the document at or after `i`, in order.
pub fn scan_captions_at(s: &str, i: usize) -> (r: Vec<String>)
    ensures
        views_of(r@) == scan_captions(s@, i as int),
    decreases s@.len() - i,
{
    proof {
        reveal_strlit("<strong");
        reveal_strlit(">");
        reveal_strlit("<");
        reveal_strlit("</strong>");
    }
    let n = s.unicode_len();
    match find_in(s, i, "<strong") {
        None => {
            let r: Vec<String> = Vec::new();
            proof {
                assert(views_of(r@) =~= scan_captions(s@, i as int));
            }
            r
        },
        Some(j) => {
            proof {
                lemma_find_from(s@, i as int, strong_open());
            }
            match find_in(s, j + 7, ">") {
                None => {
                    let r: Vec<String> = Vec::new();
                    proof {
                        assert(views_of(r@) =~= scan_captions(s@, i as int));
                    }
                    r
                },
                Some(g) => {
                    proof {
                        lemma_find_from(s@, j + 7, tag_end());
                    }
                    match find_in(s, g + 1, "<") {
                        None => {
                            let r: Vec<String> = Vec::new();
                            proof {
                                assert(views_of(r@) =~= scan_captions(s@, i as int));
                            }
                            r
                        },
                        Some(h) => {
                            proof {
                                lemma_find_from(s@, g + 1, tag_start());
                            }
                            let close = match_at(s, h, "</strong>");
                            let t = s.substring_char(g + 1, h);
                            if close && caption_check(t) {
                                let cap = trim_str(t);
                                let mut rest = scan_captions_at(s, h + 9);
                                let ghost rv = rest@;
                                rest.insert(0, cap);
                                proof {
                                    assert(views_of(rest@) =~= seq![trim(t@)] + views_of(rv));
                                    assert(views_of(rest@) =~= scan_captions(s@, i as int));
                                }
                                rest
                            } else {
                                scan_captions_at(s, j + 1)
                            }
                        },
                    }
                },
            }
        },
    }
}

/// All trimmed installer links of the document at or after `i`, in order.
pub fn scan_links_at(s: &str, i: usize) -> (r: Vec<String>)
    ensures
        views_of(r@) == scan_links(s@, i as int),
    decreases s@.len() - i,
{
    proof {
        reveal_strlit("<strong");
        reveal_strlit(">");
        reveal_strlit("</strong>");
    }
    let n = s.unicode_len();
    match find_in(s, i, "<strong") {
        None => {
            let r: Vec<String> = Vec::new();
            proof {
                assert(views_of(r@) =~= scan_links(s@, i as int));
            }
            r
        },
        Some(j) => {
            proof {
                lemma_find_from(s@, i as int, strong_open());
            }
            match find_in(s, j + 7, ">") {
                None => {
                    let r: Vec<String> = Vec::new();
                    proof {
                        assert(views_of(r@) =~= scan_links(s@, i as int));
                    }
                    r
                },
                Some(g) => {
                    proof {
                        lemma_find_from(s@, j + 7, tag_end());
                    }
                    match find_in(s, g + 1, "</strong>") {
                        None => {
                            let r: Vec<String> = Vec::new();
                            proof {
                                assert(views_of(r@) =~= scan_links(s@, i as int));
                            }
                            r
                        },
                        Some(e) => {
                            proof {
                                lemma_find_from(s@, g + 1, strong_close());
                            }
                            match find_link_at(s, g + 1, e) {
                                None => scan_links_at(s, j + 1),
                                Some(b) => {
                                    let u = s.substring_char(b.0, b.1);
                                    let url = trim_str(u);
                                    let mut rest = scan_links_at(s, e + 9);
                                    let ghost rv = rest@;
                                    rest.insert(0, url);
                                    proof {
                                        assert(views_of(rest@) =~= seq![trim(u@)] + views_of(rv));
                                        assert(views_of(rest@) =~= scan_links(s@, i as int));
                                    }
                                    rest
                                },
                            }
                        },
                    }
                },
            }
        },
    }
}

/// All installer links of the document, in document order.
pub fn get_all_links(html: &str) -> (r: Vec<String>)
    ensures
        views_of(r@) == scan_links(html@, 0),
{
    scan_links_at(html, 0)
}

/// All version captions of the document, in document order.
pub fn get_all_versions(html: &str) -> (r: Vec<String>)
    ensures
        views_of(r@) == scan_captions(html@, 0),
{
    scan_captions_at(html, 0)
}

/// A target that carries an allow-listed extension trims to a non-empty
/// string: its last character is part of the extension.
pub proof fn lemma_allowed_ext_trim_nonempty(u: Seq<char>)
    requires
        allowed_ext(u),
    ensures
        trim(u).len() > 0,
{
    reveal_strlit(".zip");
    reveal_strlit(".exe");
    reveal_strlit(".msi");
    if ends_with(u, ".zip"@) {
        assert(u.subrange(u.len() - 4, u.len() as int)[3] == u[u.len() - 1]);
    } else if ends_with(u, ".exe"@) {
        assert(u.subrange(u.len() - 4, u.len() as int)[3] == u[u.len() - 1]);
    } else {
        assert(u.subrange(u.len() - 4, u.len() as int)[3] == u[u.len() - 1]);
    }
    crate::text::lemma_trim_nonempty(u);
}

/// A found installer link target carries an allow-listed extension.
pub proof fn lemma_find_link_ext(s: Seq<char>, p: int, end: int)
    ensures
        find_link(s, p, end) >= 0 ==> {
            let a = find_link(s, p, end);
            let q2 = find_from(s, a, quote_mark());
            a <= q2 && allowed_ext(s.subrange(a, q2))
        },
    decreases end - p,
{
    reveal_strlit("href=\"");
    reveal_strlit("\"");
    let hq = find_from(s, p, href_kw());
    if hq >= 0 && hq + 6 < end {
        lemma_find_from(s, p, href_kw());
        let q2 = find_from(s, hq + 6, quote_mark());
        if 0 <= q2 < end {
            lemma_find_from(s, hq + 6, quote_mark());
            if !allowed_ext(s.subrange(hq + 6, q2)) {
                lemma_find_link_ext(s, hq + 6, end);
            }
        }
    }
}

/// Every link the scan returns is non-empty.
pub proof fn lemma_scan_links_nonempty(s: Seq<char>, i: int)
    ensures
        forall|k: int|
            0 <= k < scan_links(s, i).len() ==> (#[trigger] scan_links(s, i)[k]).len() > 0,
    decreases s.len() - i,
{
    reveal_strlit("<strong");
    reveal_strlit(">");
    reveal_strlit("</strong>");
    let ts = scan_links(s, i);
    let j = find_from(s, i, strong_open());
    if j >= 0 {
        lemma_find_from(s, i, strong_open());
        let g = find_from(s, j + 7, tag_end());
        if g >= 0 {
            lemma_find_from(s, j + 7, tag_end());
            let e = find_from(s, g + 1, strong_close());
            if e >= 0 {
                lemma_find_from(s, g + 1, strong_close());
                let a = find_link(s, g + 1, e);
                if a < 0 {
                    lemma_scan_links_nonempty(s, j + 1);
                    let rest = scan_links(s, j + 1);
                    assert forall|k: int| 0 <= k < ts.len() implies (#[trigger] ts[k]).len()
                        > 0 by {
                        assert(ts[k] == rest[k]);
                    }
                } else {
                    lemma_find_link_ext(s, g + 1, e);
                    let q2 = find_from(s, a, quote_mark());
                    lemma_allowed_ext_trim_nonempty(s.subrange(a, q2));
                    lemma_scan_links_nonempty(s, e + 9);
                    let rest = scan_links(s, e + 9);
                    assert forall|k: int| 0 <= k < ts.len() implies (#[trigger] ts[k]).len()
                        > 0 by {
                        if k > 0 {
                            assert(ts[k] == rest[k - 1]);
                        } else {
                            assert(ts[0] == trim(s.subrange(a, q2)));
                        }
                    }
                }
            }
        }
    }
}


/// A well-formed caption block: the emphasized fragment around `t`.
pub open spec fn caption_block(t: Seq<char>) -> Seq<char> {
    "<strong>"@ + t + "</strong>"@
}

/// The concatenation of the caption blocks of `ts[i..]`.
pub open spec fn caption_blocks(ts: Seq<Seq<char>>, i: int) -> Seq<char>
    decreases ts.len() - i,
{
    if i < 0 || i >= ts.len() {
        Seq::empty()
    } else {
        caption_block(ts[i]) + caption_blocks(ts, i + 1)
    }
}

/// Markup-free text that passes the caption filter.
pub open spec fn plain_caption(t: Seq<char>) -> bool {
    caption_ok(t) && forall|u: int|
        0 <= u < t.len() ==> (#[trigger] t[u]) != '<' && t[u] != '>'
}

proof fn lemma_scan_caption_blocks(d: Seq<char>, ts: Seq<Seq<char>>, i: int, off: int)
    requires
        0 <= i <= ts.len(),
        0 <= off <= d.len(),
        forall|k: int| 0 <= k < ts.len() ==> plain_caption(#[trigger] ts[k]),
        d.subrange(off, d.len() as int) == caption_blocks(ts, i),
    ensures
        scan_captions(d, off) == Seq::new((ts.len() - i) as nat, |k: int| trim(ts[i + k])),
    decreases ts.len() - i,
{
    reveal_strlit("<strong");
    reveal_strlit("<strong>");
    reveal_strlit("</strong>");
    reveal_strlit(">");
    reveal_strlit("<");
    let suf = d.subrange(off, d.len() as int);
    if i == ts.len() {
        assert(suf.len() == 0);
        assert(find_from(d, off, strong_open()) == -1);
        assert(scan_captions(d, off) =~= Seq::new(0, |k: int| trim(ts[i + k])));
    } else {
        let t = ts[i];
        let tl = t.len() as int;
        let blk = caption_block(t);
        assert(plain_caption(t));
        assert(blk.len() == 17 + tl);
        assert(suf == blk + caption_blocks(ts, i + 1));
        assert(d.len() - off >= blk.len());
        assert forall|u: int| 0 <= u < blk.len() implies #[trigger] d[off + u] == blk[u] by {
            assert(suf[u] == d[off + u]);
            assert((blk + caption_blocks(ts, i + 1))[u] == blk[u]);
        }
        assert(matches_at(d, off, strong_open())) by {
            assert(d.subrange(off, off + 7) =~= strong_open());
        }
        assert(find_from(d, off, strong_open()) == off);
        assert(matches_at(d, off + 7, tag_end())) by {
            assert(d[off + 7] == blk[7]);
            assert(d.subrange(off + 7, off + 8) =~= tag_end());
        }
        assert(find_from(d, off + 7, tag_end()) == off + 7);
        let h = off + 8 + tl;
        assert(matches_at(d, h, tag_start())) by {
            assert(d[off + (8 + tl)] == blk[8 + tl]);
            assert(blk[8 + tl] == ("</strong>"@)[0]);
            assert(d.subrange(h, h + 1) =~= tag_start());
        }
        assert forall|k: int| off + 8 <= k < h implies !matches_at(d, k, tag_start()) by {
            assert(d[off + (k - off)] == blk[k - off]);
            assert(blk[k - off] == t[k - off - 8]);
            assert(t[k - off - 8] != '<');
            if matches_at(d, k, tag_start()) {
                assert(d.subrange(k, k + 1)[0] == d[k]);
            }
        }
        lemma_find_from(d, off + 8, tag_start());
        let r = find_from(d, off + 8, tag_start());
        if r == -1 {
            assert(matches_at(d, h, tag_start()));
            assert(false);
        }
        if r < h {
            assert(!matches_at(d, r, tag_start()));
            assert(false);
        }
        if r > h {
            assert(!matches_at(d, h, tag_start()));
            assert(false);
        }
        assert(matches_at(d, h, strong_close())) by {
            assert forall|u: int| 0 <= u < 9 implies #[trigger] d.subrange(h, h + 9)[u] == (
            "</strong>"@)[u] by {
                assert(d[off + (8 + tl + u)] == blk[8 + tl + u]);
            }
            assert(d.subrange(h, h + 9) =~= strong_close());
        }
        assert(d.subrange(off + 8, h) =~= t) by {
            assert forall|u: int|
                0 <= u < tl implies #[trigger] d.subrange(off + 8, h)[u] == t[u] by {
                assert(d[off + (8 + u)] == blk[8 + u]);
            }
        }
        assert(caption_ok(d.subrange(off + 8, h)));
        assert(d.subrange(h + 9, d.len() as int) =~= caption_blocks(ts, i + 1)) by {
            assert forall|u: int| 0 <= u < d.len() - h - 9 implies #[trigger] d.subrange(
                h + 9,
                d.len() as int,
            )[u] == caption_blocks(ts, i + 1)[u] by {
                assert(suf[blk.len() + u] == d[off + (blk.len() + u)]);
                assert((blk + caption_blocks(ts, i + 1))[blk.len() + u] == caption_blocks(
                    ts,
                    i + 1,
                )[u]);
            }
        }
        lemma_scan_caption_blocks(d, ts, i + 1, h + 9);
        assert(scan_captions(d, off) == seq![trim(d.subrange(off + 8, h))] + scan_captions(
            d,
            h + 9,
        ));
        assert(scan_captions(d, off) =~= Seq::new((ts.len() - i) as nat, |k: int| trim(ts[i + k])));
    }
}

/// A document that is exactly a concatenation of N well-formed caption
/// blocks yields exactly those N captions, trimmed, in document order,
/// for every N >= 0.
pub proof fn lemma_caption_blocks_scan(ts: Seq<Seq<char>>)
    requires
        forall|k: int| 0 <= k < ts.len() ==> plain_caption(#[trigger] ts[k]),
    ensures
        scan_captions(caption_blocks(ts, 0), 0) == Seq::new(
            ts.len(),
            |k: int| trim(ts[k]),
        ),
{
    let d = caption_blocks(ts, 0);
    assert(d.subrange(0, d.len() as int) =~= d);
    lemma_scan_caption_blocks(d, ts, 0, 0);
    assert(Seq::new((ts.len() - 0) as nat, |k: int| trim(ts[0 + k])) =~= Seq::new(
        ts.len(),
        |k: int| trim(ts[k]),
    ));
}


/// A well-formed link block: an emphasized fragment holding one anchor
/// whose quoted target is `u`.
pub open spec fn link_block(u: Seq<char>) -> Seq<char> {
    "<strong><a href=\""@ + u + "\"></a></strong>"@
}

/// The concatenation of the link blocks of `us[i..]`.
pub open spec fn link_blocks(us: Seq<Seq<char>>, i: int) -> Seq<char>
    decreases us.len() - i,
{
    if i < 0 || i >= us.len() {
        Seq::empty()
    } else {
        link_block(us[i]) + link_blocks(us, i + 1)
    }
}

/// A markup-free quoted target with an allow-listed extension.
pub open spec fn plain_url(u: Seq<char>) -> bool {
    allowed_ext(u) && forall|k: int|
        0 <= k < u.len() ==> (#[trigger] u[k]) != '<' && u[k] != '>' && u[k] != '"'
}

proof fn lemma_scan_link_blocks(d: Seq<char>, us: Seq<Seq<char>>, i: int, off: int)
    requires
        0 <= i <= us.len(),
        0 <= off <= d.len(),
        forall|k: int| 0 <= k < us.len() ==> plain_url(#[trigger] us[k]),
        d.subrange(off, d.len() as int) == link_blocks(us, i),
    ensures
        scan_links(d, off) == Seq::new((us.len() - i) as nat, |k: int| trim(us[i + k])),
    decreases us.len() - i,
{
    reveal_strlit("<strong");
    reveal_strlit("<strong><a href=\"");
    reveal_strlit("\"></a></strong>");
    reveal_strlit("</strong>");
    reveal_strlit("href=\"");
    reveal_strlit(">");
    reveal_strlit("\"");
    reveal_strlit(".zip");
    reveal_strlit(".exe");
    reveal_strlit(".msi");
    let suf = d.subrange(off, d.len() as int);
    if i == us.len() {
        assert(suf.len() == 0);
        assert(find_from(d, off, strong_open()) == -1);
        assert(scan_links(d, off) =~= Seq::new(0, |k: int| trim(us[i + k])));
    } else {
        let u = us[i];
        let m = u.len() as int;
        let blk = link_block(u);
        let head = "<strong><a href=\""@;
        let tail = "\"></a></strong>"@;
        assert(plain_url(u));
        assert(u.len() >= 4);
        assert(blk.len() == 32 + m);
        assert(suf == blk + link_blocks(us, i + 1));
        assert(d.len() - off >= blk.len());
        assert forall|w: int| 0 <= w < blk.len() implies #[trigger] d[off + w] == blk[w] by {
            assert(suf[w] == d[off + w]);
            assert((blk + link_blocks(us, i + 1))[w] == blk[w]);
        }
        assert forall|w: int| 0 <= w < 17 implies #[trigger] blk[w] == head[w] by {
            assert((head + u)[w] == head[w]);
            assert(((head + u) + tail)[w] == (head + u)[w]);
        }
        assert forall|w: int| 0 <= w < m implies #[trigger] blk[17 + w] == u[w] by {
            assert((head + u)[17 + w] == u[w]);
            assert(((head + u) + tail)[17 + w] == (head + u)[17 + w]);
        }
        assert forall|w: int| 0 <= w < 15 implies #[trigger] blk[17 + m + w] == tail[w] by {
            assert(((head + u) + tail)[(head + u).len() + w] == tail[w]);
        }
        // the block opens with the emphasis tag
        assert(matches_at(d, off, strong_open())) by {
            assert(d.subrange(off, off + 7) =~= strong_open());
        }
        assert(find_from(d, off, strong_open()) == off);
        assert(matches_at(d, off + 7, tag_end())) by {
            assert(d[off + 7] == blk[7]);
            assert(d.subrange(off + 7, off + 8) =~= tag_end());
        }
        assert(find_from(d, off + 7, tag_end()) == off + 7);
        // the close tag stands right after the anchor
        let e = off + 23 + m;
        assert(matches_at(d, e, strong_close())) by {
            assert forall|w: int| 0 <= w < 9 implies #[trigger] d.subrange(e, e + 9)[w]
                == strong_close()[w] by {
                assert(d[off + (23 + m + w)] == blk[23 + m + w]);
                assert(blk[17 + m + (6 + w)] == tail[6 + w]);
            }
            assert(d.subrange(e, e + 9) =~= strong_close());
        }
        assert forall|k: int| off + 8 <= k < e implies !matches_at(d, k, strong_close()) by {
            if matches_at(d, k, strong_close()) {
                assert(d.subrange(k, k + 9)[0] == d[k]);
                assert(d[off + (k - off)] == blk[k - off]);
                if k < off + 17 {
                    assert(blk[k - off] == head[k - off]);
                    assert(k == off + 8);
                    assert(d.subrange(k, k + 9)[1] == d[off + (k - off + 1)]);
                    assert(blk[9] == head[9]);
                } else if k < off + 17 + m {
                    assert(blk[k - off] == u[k - off - 17]);
                } else {
                    assert(blk[17 + m + (k - off - 17 - m)] == tail[k - off - 17 - m]);
                    assert(k == off + 19 + m);
                    assert(d.subrange(k, k + 9)[2] == d[off + (k - off + 2)]);
                    assert(blk[17 + m + 4] == tail[4]);
                }
            }
        }
        lemma_find_from(d, off + 8, strong_close());
        let r = find_from(d, off + 8, strong_close());
        if r == -1 {
            assert(matches_at(d, e, strong_close()));
            assert(false);
        }
        if r < e {
            assert(!matches_at(d, r, strong_close()));
            assert(false);
        }
        if r > e {
            assert(!matches_at(d, e, strong_close()));
            assert(false);
        }
        // the anchor's reference begins right inside the open tag
        let hq = off + 11;
        assert(matches_at(d, hq, href_kw())) by {
            assert forall|w: int| 0 <= w < 6 implies #[trigger] d.subrange(hq, hq + 6)[w]
                == href_kw()[w] by {
                assert(d[off + (11 + w)] == blk[11 + w]);
                assert(blk[11 + w] == head[11 + w]);
            }
            assert(d.subrange(hq, hq + 6) =~= href_kw());
        }
        assert forall|k: int| off + 8 <= k < hq implies !matches_at(d, k, href_kw()) by {
            if matches_at(d, k, href_kw()) {
                assert(d.subrange(k, k + 6)[0] == d[k]);
                assert(d[off + (k - off)] == blk[k - off]);
                assert(blk[k - off] == head[k - off]);
            }
        }
        lemma_find_from(d, off + 8, href_kw());
        let rh = find_from(d, off + 8, href_kw());
        if rh == -1 {
            assert(matches_at(d, hq, href_kw()));
            assert(false);
        }
        if rh < hq {
            assert(!matches_at(d, rh, href_kw()));
            assert(false);
        }
        if rh > hq {
            assert(!matches_at(d, hq, href_kw()));
            assert(false);
        }
        // the quote closing the target is the first one after it
        let q2 = off + 17 + m;
        assert(matches_at(d, q2, quote_mark())) by {
            assert(d[off + (17 + m)] == blk[17 + m]);
            assert(blk[17 + m + 0] == tail[0]);
            assert(d.subrange(q2, q2 + 1) =~= quote_mark());
        }
        assert forall|k: int| off + 17 <= k < q2 implies !matches_at(d, k, quote_mark()) by {
            if matches_at(d, k, quote_mark()) {
                assert(d.subrange(k, k + 1)[0] == d[k]);
                assert(d[off + (k - off)] == blk[k - off]);
                assert(blk[17 + (k - off - 17)] == u[k - off - 17]);
            }
        }
        lemma_find_from(d, off + 17, quote_mark());
        let rq = find_from(d, off + 17, quote_mark());
        if rq == -1 {
            assert(matches_at(d, q2, quote_mark()));
            assert(false);
        }
        if rq < q2 {
            assert(!matches_at(d, rq, quote_mark()));
            assert(false);
        }
        if rq > q2 {
            assert(!matches_at(d, q2, quote_mark()));
            assert(false);
        }
        // the quoted target is the block's url
        assert(d.subrange(off + 17, q2) =~= u) by {
            assert forall|w: int|
                0 <= w < m implies #[trigger] d.subrange(off + 17, q2)[w] == u[w] by {
                assert(d[off + (17 + w)] == blk[17 + w]);
            }
        }
        assert(allowed_ext(d.subrange(off + 17, q2)));
        assert(find_link(d, off + 8, e) == off + 17);
        // the rest of the document is the remaining blocks
        assert(d.subrange(e + 9, d.len() as int) =~= link_blocks(us, i + 1)) by {
            assert forall|w: int| 0 <= w < d.len() - e - 9 implies #[trigger] d.subrange(
                e + 9,
                d.len() as int,
            )[w] == link_blocks(us, i + 1)[w] by {
                assert(suf[blk.len() + w] == d[off + (blk.len() + w)]);
                assert((blk + link_blocks(us, i + 1))[blk.len() + w] == link_blocks(
                    us,
                    i + 1,
                )[w]);
            }
        }
        lemma_scan_link_blocks(d, us, i + 1, e + 9);
        assert(scan_links(d, off) == seq![trim(d.subrange(off + 17, q2))] + scan_links(d, e + 9));
        assert(scan_links(d, off) =~= Seq::new((us.len() - i) as nat, |k: int| trim(us[i + k])));
    }
}

/// A document that is exactly a concatenation of N well-formed link
/// blocks yields exactly those N targets, trimmed, in document order,
/// for every N >= 0.
pub proof fn lemma_link_blocks_scan(us: Seq<Seq<char>>)
    requires
        forall|k: int| 0 <= k < us.len() ==> plain_url(#[trigger] us[k]),
    ensures
        scan_links(link_blocks(us, 0), 0) == Seq::new(us.len(), |k: int| trim(us[k])),
{
    let d = link_blocks(us, 0);
    assert(d.subrange(0, d.len() as int) =~= d);
    lemma_scan_link_blocks(d, us, 0, 0);
    assert(Seq::new((us.len() - 0) as nat, |k: int| trim(us[0 + k])) =~= Seq::new(
        us.len(),
        |k: int| trim(us[k]),
    ));
}

/// One announcement block: a version caption paired with the download link
/// extracted from the same scan position.
#[derive(Debug, PartialEq, Eq)]
pub struct AnnouncementBlock {
    pub caption: String,
    pub url: String,
}

/// Pair every caption with its link, in document order. The pairing exists
/// exactly when both scans agree on the count; otherwise the extraction
/// fails with the mismatch, and no partial pairing is attempted.
pub fn extract_blocks(html: &str) -> (r: Result<Vec<AnnouncementBlock>, PipelineError>)
    ensures
        match r {
            Ok(v) => {
                &&& scan_links(html@, 0).len() == scan_captions(html@, 0).len()
                &&& v@.len() == scan_captions(html@, 0).len()
                &&& forall|k: int|
                    0 <= k < v@.len() ==> (#[trigger] v@[k]).caption@ == scan_captions(html@, 0)[k]
                        && v@[k].url@ == scan_links(html@, 0)[k]
            },
            Err(e) => {
                &&& scan_links(html@, 0).len() != scan_captions(html@, 0).len()
                &&& e == (PipelineError::Mismatch {
                    links: scan_links(html@, 0).len() as usize,
                    captions: scan_captions(html@, 0).len() as usize,
                })
            },
        },
{
    let links = get_all_links(html);
    let caps = get_all_versions(html);
    if links.len() != caps.len() {
        return Err(PipelineError::Mismatch { links: links.len(), captions: caps.len() });
    }
    let mut out: Vec<AnnouncementBlock> = Vec::new();
    let mut k: usize = 0;
    while k < caps.len()
        invariant
            k <= caps.len(),
            caps.len() == links.len(),
            views_of(caps@) == scan_captions(html@, 0),
            views_of(links@) == scan_links(html@, 0),
            out@.len() == k,
            forall|t: int|
                0 <= t < k ==> (#[trigger] out@[t]).caption@ == scan_captions(html@, 0)[t]
                    && out@[t].url@ == scan_links(html@, 0)[t],
        decreases caps.len() - k,
    {
        out.push(AnnouncementBlock { caption: caps[k].clone(), url: links[k].clone() });
        k += 1;
    }
    Ok(out)
}

} // verus!
