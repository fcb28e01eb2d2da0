//! The input classifier: maps free-form user text and the configured
//! search-engine table to the launch target.  Trimmed input is classified
//! in this order: empty input means "launch with no argument"; text with a
//! scheme separator is an absolute URL; whitespace-free text with a dot (a
//! bare domain) or a colon (a host:port form) gets an `https://` prefix;
//! everything else becomes a search-engine query.

use vstd::prelude::*;
use crate::text::{
    contains_char, contains_char_str, contains_seq, contains_sub, encode_plus, find_sub,
    first_occ, first_token, first_token_str, has_space, has_space_str, lemma_first_occ_from,
    plus_encoded, str_eq, token_rest, token_rest_str, trim_spec, trim_str,
};

verus! {

/// A user-configured search-engine alias.  `keyword` is the short token
/// typed before a query; `url` is the template holding one `{}`
/// placeholder; `icon_path` is an opaque icon reference.
pub struct SearchEngine {
    pub name: String,
    pub keyword: String,
    pub url: String,
    pub icon_path: Option<String>,
}

/// Mathematical image of a `SearchEngine`.
pub struct SearchEngineView {
    pub name: Seq<char>,
    pub keyword: Seq<char>,
    pub url: Seq<char>,
    pub icon_path: Option<Seq<char>>,
}

impl View for SearchEngine {
    type V = SearchEngineView;

    open spec fn view(&self) -> SearchEngineView {
        SearchEngineView {
            name: self.name@,
            keyword: self.keyword@,
            url: self.url@,
            icon_path: match self.icon_path {
                Option::Some(p) => Option::Some(p@),
                Option::None => Option::None,
            },
        }
    }
}

/// The views of a sequence of engines.
pub open spec fn engines_view(v: Seq<SearchEngine>) -> Seq<SearchEngineView> {
    v.map_values(|e: SearchEngine| e@)
}

/// The launch target resolved from raw user input.
#[derive(Debug, PartialEq, Eq)]
pub enum ResolvedTarget {
    /// Launch the handler with no argument at all.
    NoArgument,
    /// Hand the handler this absolute URL.
    Url(String),
}

/// Mathematical image of a `ResolvedTarget`.
pub enum TargetView {
    NoArgument,
    Url(Seq<char>),
}

impl View for ResolvedTarget {
    type V = TargetView;

    open spec fn view(&self) -> TargetView {
        match self {
            ResolvedTarget::NoArgument => TargetView::NoArgument,
            ResolvedTarget::Url(u) => TargetView::Url(u@),
        }
    }
}

/// A URL template is valid when it holds exactly one `{}` placeholder.
pub open spec fn template_valid(t: Seq<char>) -> bool {
    &&& contains_seq(t, "{}"@)
    &&& forall|i: int, j: int|
        crate::text::occurs_at(t, "{}"@, i) && crate::text::occurs_at(t, "{}"@, j) ==> i == j
}

/// Whether a URL template holds exactly one `{}` placeholder, as a
/// valid search-engine template must.
pub fn template_is_valid(t: &str) -> (r: bool)
    ensures
        r == template_valid(t@),
{
    proof {
        crate::text::lemma_contains_first_occ(t@, "{}"@);
        lemma_first_occ_from(t@, "{}"@, 0);
    }
    match find_sub(t, "{}") {
        Option::None => false,
        Option::Some(i) => {
            proof {
                reveal_strlit("{}");
            }
            let n: usize = t.unicode_len();
            let rest = t.substring_char(i + 1, n);
            proof {
                assert(rest@ =~= t@.skip(i + 1));
                crate::text::lemma_contains_first_occ(rest@, "{}"@);
                lemma_first_occ_from(rest@, "{}"@, 0);
            }
            match find_sub(rest, "{}") {
                Option::None => {
                    proof {
                        assert forall|a: int, b: int|
                            crate::text::occurs_at(t@, "{}"@, a) && crate::text::occurs_at(
                                t@,
                                "{}"@,
                                b,
                            ) implies a == b by {
                            if a > i {
                                crate::text::lemma_occurs_shift(t@, "{}"@, i + 1, a - i - 1);
                            }
                            if b > i {
                                crate::text::lemma_occurs_shift(t@, "{}"@, i + 1, b - i - 1);
                            }
                        }
                    }
                    true
                },
                Option::Some(j2) => {
                    proof {
                        crate::text::lemma_occurs_shift(t@, "{}"@, i + 1, j2 as int);
                        assert(crate::text::occurs_at(t@, "{}"@, i + 1 + j2));
                        assert(crate::text::occurs_at(t@, "{}"@, i as int));
                    }
                    false
                },
            }
        },
    }
}

/// The template's first `{}` placeholder replaced by `enc`; templates
/// without a placeholder are left unchanged.  On a valid template the
/// first placeholder is the only one.
pub open spec fn subst_spec(t: Seq<char>, enc: Seq<char>) -> Seq<char> {
    let i = first_occ(t, "{}"@);
    if i == -1 {
        t
    } else {
        t.take(i) + enc + t.skip(i + 2)
    }
}

/// Substitute the encoded query into the template's first placeholder.
pub fn apply_template(t: &str, enc: &str) -> (r: String)
    ensures
        r@ == subst_spec(t@, enc@),
{
    let n: usize = t.unicode_len();
    match find_sub(t, "{}") {
        Option::None => String::from_str(t),
        Option::Some(i) => {
            proof {
                reveal_strlit("{}");
            }
            let prefix = t.substring_char(0, i);
            let suffix = t.substring_char(i + 2, n);
            let mut out = String::from_str(prefix);
            out.append(enc);
            out.append(suffix);
            proof {
                assert(t@.subrange(0, i as int) =~= t@.take(i as int));
                assert(t@.subrange(i + 2, n as int) =~= t@.skip(i + 2));
            }
            out
        },
    }
}

/// Index of the first engine whose keyword is `kw`, or -1.
pub open spec fn engine_idx_from(engines: Seq<SearchEngineView>, kw: Seq<char>, i: int) -> int
    decreases engines.len() - i,
{
    if i < 0 || i >= engines.len() {
        -1
    } else if engines[i].keyword == kw {
        i
    } else {
        engine_idx_from(engines, kw, i + 1)
    }
}

/// Index of the first engine whose keyword is `kw`, or -1 when none is.
pub open spec fn engine_idx(engines: Seq<SearchEngineView>, kw: Seq<char>) -> int {
    engine_idx_from(engines, kw, 0)
}

/// Find the first engine registered under the keyword `kw`.
fn find_engine(engines: &Vec<SearchEngine>, kw: &str) -> (r: Option<usize>)
    ensures
        match r {
            Some(k) => k == engine_idx(engines_view(engines@), kw@) && k < engines@.len()
                && engines@[k as int]@.keyword == kw@,
            None => engine_idx(engines_view(engines@), kw@) == -1,
        },
{
    let ghost ev = engines_view(engines@);
    let mut i: usize = 0;
    while i < engines.len()
        invariant
            i <= engines@.len(),
            ev == engines_view(engines@),
            engine_idx(ev, kw@) == engine_idx_from(ev, kw@, i as int),
        decreases engines@.len() - i,
    {
        let e = &engines[i];
        proof {
            assert(ev[i as int] == engines@[i as int]@);
        }
        if str_eq(e.keyword.as_str(), kw) {
            return Some(i);
        }
        i = i + 1;
    }
    None
}

/// The built-in web-search template used when no engine table applies.
pub open spec fn builtin_template() -> Seq<char> {
    "https://www.google.com/search?q={}"@
}

/// The search URL for trimmed, non-URL input `t`: the first token may
/// select an engine by keyword (the rest is then the query); otherwise the
/// default engine takes the whole input, with the built-in template as the
/// last resort.  Queries are encoded by turning spaces into `+`.
pub open spec fn search_url(
    t: Seq<char>,
    engines: Seq<SearchEngineView>,
    default_kw: Seq<char>,
) -> Seq<char> {
    let tok = first_token(t);
    let by_tok = engine_idx(engines, tok);
    if by_tok != -1 {
        subst_spec(engines[by_tok].url, plus_encoded(token_rest(t)))
    } else {
        let by_default = engine_idx(engines, default_kw);
        if by_default != -1 {
            subst_spec(engines[by_default].url, plus_encoded(t))
        } else {
            subst_spec(builtin_template(), plus_encoded(t))
        }
    }
}

/// The classification contract, evaluated on trimmed input in this exact
/// order: empty, absolute URL, bare domain, search query.
pub open spec fn classify_spec(
    raw: Seq<char>,
    engines: Seq<SearchEngineView>,
    default_kw: Seq<char>,
) -> TargetView {
    let t = trim_spec(raw);
    if t.len() == 0 {
        TargetView::NoArgument
    } else if contains_seq(t, "://"@) {
        TargetView::Url(t)
    } else if !has_space(t) && (contains_char(t, '.') || contains_char(t, ':')) {
        TargetView::Url("https://"@ + t)
    } else {
        TargetView::Url(search_url(t, engines, default_kw))
    }
}

/// Resolve raw user input to a launch target.  Total: every input maps to
/// a target, and the same inputs always give the same target.
pub fn classify(raw: &str, engines: &Vec<SearchEngine>, default_keyword: &str) -> (r:
    ResolvedTarget)
    ensures
        r@ == classify_spec(raw@, engines_view(engines@), default_keyword@),
{
    let t = trim_str(raw);
    let n: usize = t.unicode_len();
    if n == 0 {
        ResolvedTarget::NoArgument
    } else if contains_sub(t, "://") {
        proof {
            crate::text::lemma_contains_first_occ(t@, "://"@);
        }
        ResolvedTarget::Url(String::from_str(t))
    } else {
        proof {
            crate::text::lemma_contains_first_occ(t@, "://"@);
        }
        let dotted = contains_char_str(t, '.');
        let coloned = contains_char_str(t, ':');
        let spaced = has_space_str(t);
        if !spaced && (dotted || coloned) {
            let mut u = String::from_str("https://");
            u.append(t);
            ResolvedTarget::Url(u)
        } else {
            let tok = first_token_str(t);
            match find_engine(engines, tok) {
                Option::Some(k) => {
                    let q = token_rest_str(t);
                    let enc = encode_plus(q);
                    let u = apply_template(engines[k].url.as_str(), enc.as_str());
                    ResolvedTarget::Url(u)
                },
                Option::None => {
                    let enc = encode_plus(t);
                    match find_engine(engines, default_keyword) {
                        Option::Some(k) => {
                            let u = apply_template(engines[k].url.as_str(), enc.as_str());
                            ResolvedTarget::Url(u)
                        },
                        Option::None => {
                            let u = apply_template(
                                "https://www.google.com/search?q={}",
                                enc.as_str(),
                            );
                            ResolvedTarget::Url(u)
                        },
                    }
                },
            }
        }
    }
}

} // verus!
