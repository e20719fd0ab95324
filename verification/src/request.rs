use reqwest::blocking::{Client, RequestBuilder};
use vstd::prelude::*;
use vstd::string::*;

verus! {

/// The character that parts the key from the value in a header or a query
/// string given as `key=value`.
pub open spec fn separator() -> char {
    '='
}

/// `k` is the position of the first separator in `s`.
pub open spec fn is_first_separator(s: Seq<char>, k: int) -> bool {
    &&& 0 <= k < s.len()
    &&& s[k] == separator()
    &&& forall|j: int| 0 <= j < k ==> s[j] != separator()
}

/// `k` is the position of the last separator in `s`.
pub open spec fn is_last_separator(s: Seq<char>, k: int) -> bool {
    &&& 0 <= k < s.len()
    &&& s[k] == separator()
    &&& forall|j: int| k < j < s.len() ==> s[j] != separator()
}

/// The key of an entry: the text before its first separator.
pub open spec fn entry_key(s: Seq<char>) -> Seq<char> {
    s.subrange(0, choose|k: int| is_first_separator(s, k))
}

/// The value of an entry: the text after its last separator (so `a=b=c`
/// has the key `a` and the value `c`).
pub open spec fn entry_value(s: Seq<char>) -> Seq<char> {
    s.subrange((choose|k: int| is_last_separator(s, k)) + 1, s.len() as int)
}

/// Every entry of `v` holds a separator.
pub open spec fn all_separated(v: Seq<String>) -> bool {
    forall|i: int| 0 <= i < v.len() ==> (#[trigger] v[i])@.contains(separator())
}

/// Entry `i` is the first entry of `v` without a separator.
pub open spec fn is_first_unseparated(v: Seq<String>, i: int) -> bool {
    &&& 0 <= i < v.len()
    &&& !v[i]@.contains(separator())
    &&& forall|j: int| 0 <= j < i ==> (#[trigger] v[j])@.contains(separator())
}

/// `pairs` holds, in order, the key and the value of each entry of `v`.
pub open spec fn pairs_of(pairs: Seq<(String, String)>, v: Seq<String>) -> bool {
    &&& pairs.len() == v.len()
    &&& forall|i: int|
        0 <= i < v.len() ==> {
            &&& (#[trigger] pairs[i]).0@ == entry_key(v[i]@)
            &&& pairs[i].1@ == entry_value(v[i]@)
        }
}

/// Why the headers or query strings of a request cannot be used: the entry at
/// the given position has no `=` between its key and its value.
#[derive(Debug, Clone, Copy, PartialEq, Eq, Structural)]
pub enum RequestError {
    InvalidHeader(usize),
    InvalidQueryString(usize),
}

/// A request ready to be sent with `GET`: the URL, then the headers and the
/// query-string parameters as `(key, value)` pairs, in the order given.
pub struct RequestPlan {
    pub url: String,
    pub headers: Vec<(String, String)>,
    pub query: Vec<(String, String)>,
}

proof fn lemma_first_separator_unique(s: Seq<char>, k: int)
    requires
        is_first_separator(s, k),
    ensures
        (choose|m: int| is_first_separator(s, m)) == k,
{
    let m = choose|m: int| is_first_separator(s, m);
    assert(is_first_separator(s, m));
    if m < k {
        assert(s[m] != separator());
    } else if k < m {
        assert(s[k] != separator());
    }
}

proof fn lemma_last_separator_unique(s: Seq<char>, k: int)
    requires
        is_last_separator(s, k),
    ensures
        (choose|m: int| is_last_separator(s, m)) == k,
{
    let m = choose|m: int| is_last_separator(s, m);
    assert(is_last_separator(s, m));
    if m < k {
        assert(s[k] != separator());
    } else if k < m {
        assert(s[m] != separator());
    }
}

/// Neither the key nor the value of an entry holds a separator.
pub proof fn lemma_key_value_unseparated(s: Seq<char>)
    requires
        s.contains(separator()),
    ensures
        !entry_key(s).contains(separator()),
        !entry_value(s).contains(separator()),
{
    let i = choose|i: int| 0 <= i < s.len() && s[i] == separator();
    let first = choose|k: int| is_first_separator(s, k);
    let last = choose|k: int| is_last_separator(s, k);
    assert(exists|k: int| is_first_separator(s, k)) by {
        lemma_smallest_separator(s, i);
    }
    assert(exists|k: int| is_last_separator(s, k)) by {
        lemma_largest_separator(s, i);
    }
    assert(is_first_separator(s, first));
    assert(is_last_separator(s, last));
    if entry_key(s).contains(separator()) {
        let j = choose|j: int| 0 <= j < entry_key(s).len() && entry_key(s)[j] == separator();
        assert(s[j] == separator());
    }
    if entry_value(s).contains(separator()) {
        let j = choose|j: int| 0 <= j < entry_value(s).len() && entry_value(s)[j] == separator();
        assert(s[last + 1 + j] == separator());
    }
}

proof fn lemma_smallest_separator(s: Seq<char>, i: int)
    requires
        0 <= i < s.len(),
        s[i] == separator(),
    ensures
        exists|k: int| is_first_separator(s, k),
    decreases i,
{
    if forall|j: int| 0 <= j < i ==> s[j] != separator() {
        assert(is_first_separator(s, i));
    } else {
        let j = choose|j: int| 0 <= j < i && s[j] == separator();
        lemma_smallest_separator(s, j);
    }
}

proof fn lemma_largest_separator(s: Seq<char>, i: int)
    requires
        0 <= i < s.len(),
        s[i] == separator(),
    ensures
        exists|k: int| is_last_separator(s, k),
    decreases s.len() - i,
{
    if forall|j: int| i < j < s.len() ==> s[j] != separator() {
        assert(is_last_separator(s, i));
    } else {
        let j = choose|j: int| i < j < s.len() && s[j] == separator();
        lemma_largest_separator(s, j);
    }
}

/// An entry with exactly one separator is its key, the separator and its
/// value, put back together.
pub proof fn lemma_single_separator_roundtrip(s: Seq<char>, k: int)
    requires
        is_first_separator(s, k),
        is_last_separator(s, k),
    ensures
        entry_key(s) + seq![separator()] + entry_value(s) == s,
{
    lemma_first_separator_unique(s, k);
    lemma_last_separator_unique(s, k);
    assert(entry_key(s) + seq![separator()] + entry_value(s) =~= s);
}

/// Splits a `key=value` entry: `None` when it holds no `=`; otherwise the text
/// before the first `=` and the text after the last one.
pub fn split_key_value(entry: &str) -> (pair: Option<(String, String)>)
    ensures
        pair is None <==> !entry@.contains(separator()),
        pair matches Some(p) ==> p.0@ == entry_key(entry@) && p.1@ == entry_value(entry@),
{
    let ghost s = entry@;
    let len = entry.unicode_len();
    let mut first: usize = len;
    let mut last: usize = len;
    let mut i: usize = 0;
    while i < len
        invariant
            len == s.len(),
            s == entry@,
            i <= len,
            first <= len,
            last <= len,
            first == len <==> last == len,
            first == len ==> forall|j: int| 0 <= j < i ==> s[j] != separator(),
            first < len ==> first < i && is_first_separator(s, first as int),
            last < len ==> last < i && s[last as int] == separator() && forall|j: int|
                last < j < i ==> s[j] != separator(),
        decreases len - i,
    {
        let c = entry.get_char(i);
        if c == '=' {
            if first == len {
                first = i;
            }
            last = i;
        }
        i = i + 1;
    }
    if first == len {
        assert(!s.contains(separator()));
        return None;
    }
    proof {
        lemma_first_separator_unique(s, first as int);
        lemma_last_separator_unique(s, last as int);
    }
    let key = entry.substring_char(0, first);
    let value = entry.substring_char(last + 1, len);
    Some((String::from_str(key), String::from_str(value)))
}

/// Parses every entry of `entries` into its `(key, value)` pair, or gives the
/// position of the first entry without `=`.
fn split_all(entries: &Vec<String>) -> (r: Result<Vec<(String, String)>, usize>)
    ensures
        match r {
            Ok(pairs) => all_separated(entries@) && pairs_of(pairs@, entries@),
            Err(i) => is_first_unseparated(entries@, i as int),
        },
{
    let mut pairs: Vec<(String, String)> = Vec::new();
    let n = entries.len();
    for i in 0..n
        invariant
            n == entries@.len(),
            forall|j: int| 0 <= j < i ==> (#[trigger] entries@[j])@.contains(separator()),
            pairs_of(pairs@, entries@.take(i as int)),
    {
        match split_key_value(entries[i].as_str()) {
            Some(pair) => {
                pairs.push(pair);
            },
            None => {
                return Err(i);
            },
        }
    }
    assert(entries@.take(n as int) =~= entries@);
    Ok(pairs)
}

/// Prepares a `GET` request to `url`: splits each header and each query
/// string at `=`. Headers are looked at first, so a bad header is reported
/// even when a query string is bad too.
pub fn plan_request(url: &str, headers: &Vec<String>, query_strings: &Vec<String>) -> (r: Result<
    RequestPlan,
    RequestError,
>)
    ensures
        match r {
            Ok(plan) => {
                &&& all_separated(headers@)
                &&& all_separated(query_strings@)
                &&& plan.url@ == url@
                &&& pairs_of(plan.headers@, headers@)
                &&& pairs_of(plan.query@, query_strings@)
            },
            Err(RequestError::InvalidHeader(i)) => is_first_unseparated(headers@, i as int),
            Err(RequestError::InvalidQueryString(i)) => {
                &&& all_separated(headers@)
                &&& is_first_unseparated(query_strings@, i as int)
            },
        },
{
    let header_pairs = match split_all(headers) {
        Ok(pairs) => pairs,
        Err(i) => {
            return Err(RequestError::InvalidHeader(i));
        },
    };
    let query_pairs = match split_all(query_strings) {
        Ok(pairs) => pairs,
        Err(i) => {
            return Err(RequestError::InvalidQueryString(i));
        },
    };
    Ok(RequestPlan { url: String::from_str(url), headers: header_pairs, query: query_pairs })
}

/// reqwest's blocking HTTP client, carried through as an opaque value.
#[verifier::external_type_specification]
#[verifier::external_body]
pub struct ExClient(reqwest::blocking::Client);

/// reqwest's blocking request builder. It is opaque; what the contracts need
/// of it is named by `builder_failed`, `builder_headers`, `builder_query` and
/// `builder_url_len`.
#[verifier::external_type_specification]
#[verifier::external_body]
pub struct ExRequestBuilder(reqwest::blocking::RequestBuilder);

/// Whether a request builder holds an error in place of a request (a URL
/// that did not parse, or a header that HTTP refuses). Such a builder stays
/// failed, and sending it reports the error.
pub uninterp spec fn builder_failed(b: RequestBuilder) -> bool;

/// The headers of the request in a builder: each name, lower-cased, mapped
/// to its values in the order they were added.
pub uninterp spec fn builder_headers(b: RequestBuilder) -> Map<Seq<char>, Seq<Seq<char>>>;

/// The query of the URL of the request in a builder, as decoded
/// `(key, value)` pairs in order.
pub uninterp spec fn builder_query(b: RequestBuilder) -> Seq<(Seq<char>, Seq<char>)>;

/// The length in bytes of the text of the URL of the request in a builder.
pub uninterp spec fn builder_url_len(b: RequestBuilder) -> nat;

/// What `reqwest::blocking::Client::get` makes of `url`: whether the URL
/// parses into one with a host; the headers it starts with (an
/// `authorization` header when the URL carries a user name or password);
/// and the decoded query pairs already in the URL.
pub uninterp spec fn get_outcome(url: Seq<char>) -> (
    bool,
    Map<Seq<char>, Seq<Seq<char>>>,
    Seq<(Seq<char>, Seq<char>)>,
);

/// What `url::Url::parse` makes of `url`: the text of the parsed URL, or
/// `None` when it does not parse.
pub uninterp spec fn parsed_url(url: Seq<char>) -> Option<Seq<char>>;

/// A character upper-cased by ASCII rules becomes lower case; any other stays.
pub open spec fn ascii_lower(c: char) -> char {
    if 65 <= c as u32 <= 90 {
        ((c as u32) + 32) as char
    } else {
        c
    }
}

/// `s` lower-cased by ASCII rules, as HTTP header names are stored.
pub open spec fn lower(s: Seq<char>) -> Seq<char> {
    s.map_values(|c: char| ascii_lower(c))
}

/// A character that may stand in an HTTP header name (the `http` crate's
/// table: letters, digits and ``!"#$%&'*+-.^_`|~``).
pub open spec fn header_name_char(c: char) -> bool {
    let u = c as u32;
    ||| 33 <= u <= 39
    ||| u == 42 || u == 43 || u == 45 || u == 46
    ||| 48 <= u <= 57
    ||| 65 <= u <= 90
    ||| 94 <= u <= 122
    ||| u == 124 || u == 126
}

/// A header name that HTTP accepts: 1 to 65535 name characters.
pub open spec fn valid_header_name(s: Seq<char>) -> bool {
    &&& 1 <= s.len() <= 65535
    &&& forall|i: int| 0 <= i < s.len() ==> header_name_char(#[trigger] s[i])
}

/// A header value that HTTP accepts: no control character but the tab.
pub open spec fn valid_header_value(s: Seq<char>) -> bool {
    forall|i: int|
        0 <= i < s.len() ==> ((#[trigger] s[i]) as u32 >= 32 && s[i] as u32 != 127) || s[i] as u32
            == 9
}

/// Every `(name, value)` pair of `headers` is one that HTTP accepts.
pub open spec fn headers_valid(headers: Seq<(String, String)>) -> bool {
    forall|i: int|
        0 <= i < headers.len() ==> valid_header_name((#[trigger] headers[i]).0@)
            && valid_header_value(headers[i].1@)
}

/// The header map `m` with `value` added after the values of `name`.
pub open spec fn push_header(m: Map<Seq<char>, Seq<Seq<char>>>, name: Seq<char>, value: Seq<char>) -> Map<
    Seq<char>,
    Seq<Seq<char>>,
> {
    m.insert(
        name,
        if m.dom().contains(name) {
            m[name].push(value)
        } else {
            seq![value]
        },
    )
}

/// The header map `m` with the headers `headers` added in order, their names
/// lower-cased.
pub open spec fn headers_onto(m: Map<Seq<char>, Seq<Seq<char>>>, headers: Seq<(String, String)>) -> Map<
    Seq<char>,
    Seq<Seq<char>>,
>
    decreases headers.len(),
{
    if headers.len() == 0 {
        m
    } else {
        push_header(
            headers_onto(m, headers.drop_last()),
            lower(headers.last().0@),
            headers.last().1@,
        )
    }
}

/// The headers `headers` as reqwest keeps them.
pub open spec fn header_map(headers: Seq<(String, String)>) -> Map<Seq<char>, Seq<Seq<char>>> {
    headers_onto(Map::empty(), headers)
}

/// The distinct lower-cased names among `headers`.
pub open spec fn header_names(headers: Seq<(String, String)>) -> Set<Seq<char>>
    decreases headers.len(),
{
    if headers.len() == 0 {
        Set::empty()
    } else {
        header_names(headers.drop_last()).insert(lower(headers.last().0@))
    }
}

/// The query pairs `query` as character sequences, in order.
pub open spec fn query_view(query: Seq<(String, String)>) -> Seq<(Seq<char>, Seq<char>)> {
    query.map_values(|p: (String, String)| (p.0@, p.1@))
}

/// The number of bytes of `s` in UTF-8.
pub open spec fn utf8_len(s: Seq<char>) -> nat {
    vstd::utf8::encode_utf8(s).len()
}

/// How much appending the pair `key=value` can lengthen a URL: a `?` or
/// `&`, the `=`, and at most three bytes for each byte of the key and value.
pub open spec fn pair_growth(key: Seq<char>, value: Seq<char>) -> nat {
    2 + 3 * (utf8_len(key) + utf8_len(value))
}

/// How much appending all the pairs of `query` can lengthen a URL.
pub open spec fn query_growth(query: Seq<(String, String)>) -> nat
    decreases query.len(),
{
    if query.len() == 0 {
        0
    } else {
        query_growth(query.drop_last()) + pair_growth(query.last().0@, query.last().1@)
    }
}

/// The request that a plan makes fits the `url` crate's limit: the text of
/// its URL, with every query pair appended, stays within `u32::MAX` bytes.
pub open spec fn url_fits(plan: RequestPlan) -> bool {
    parsed_url(plan.url@) is Some ==> utf8_len(parsed_url(plan.url@).unwrap()) + query_growth(
        plan.query@,
    ) <= u32::MAX
}

/// What `b` holds, when built from `plan`: it fails exactly when the URL is
/// refused or a header is not valid HTTP; otherwise it holds the headers the
/// URL brings and then the plan's headers in order, and the URL's own query
/// pairs followed by the plan's query pairs in order.
pub open spec fn built_from(b: RequestBuilder, plan: RequestPlan) -> bool {
    let outcome = get_outcome(plan.url@);
    &&& builder_failed(b) <==> !outcome.0 || !headers_valid(plan.headers@)
    &&& !builder_failed(b) ==> builder_headers(b) == headers_onto(outcome.1, plan.headers@)
    &&& !builder_failed(b) ==> builder_query(b) == outcome.2 + query_view(plan.query@)
    &&& !builder_failed(b) && !plan.url@.contains('@') ==> builder_headers(b) == header_map(
        plan.headers@,
    )
    &&& !builder_failed(b) && !plan.url@.contains('?') ==> builder_query(b) == query_view(
        plan.query@,
    )
}

/// Calls `reqwest::blocking::Client::get`: starts a `GET` request to `url`.
/// The builder fails exactly when `url` does not parse into a URL with a
/// host; otherwise it starts with the headers and query pairs that
/// `get_outcome` names: at most one header name, none when `url` holds no
/// `@`, and no query pair when `url` holds no `?`. Its URL is the parsed one,
/// less any user name and password, so no longer than it.
#[verifier::external_body]
fn start_get(client: &Client, url: &str) -> (b: RequestBuilder)
    ensures
        builder_failed(b) == !get_outcome(url@).0,
        !builder_failed(b) ==> builder_headers(b) == get_outcome(url@).1,
        !builder_failed(b) ==> builder_query(b) == get_outcome(url@).2,
        !builder_failed(b) ==> builder_headers(b).dom().finite(),
        !builder_failed(b) ==> builder_headers(b).dom().len() <= 1,
        !builder_failed(b) && !url@.contains('@') ==> builder_headers(b).dom().len() == 0,
        !builder_failed(b) && !url@.contains('?') ==> builder_query(b).len() == 0,
        !builder_failed(b) ==> parsed_url(url@) is Some,
        !builder_failed(b) ==> builder_url_len(b) <= utf8_len(parsed_url(url@).unwrap()),
{
    client.get(url)
}

/// Calls `url::Url::parse` (as `reqwest::Url`): the text of the parsed URL,
/// or `None` when `url` does not parse.
#[verifier::external_body]
fn parse_url(url: &str) -> (r: Option<String>)
    ensures
        r is Some <==> parsed_url(url@) is Some,
        r matches Some(text) ==> parsed_url(url@) == Some(text@),
{
    reqwest::Url::parse(url).ok().map(String::from)
}

/// Calls `reqwest::blocking::RequestBuilder::header`: adds `value` after the
/// values of the header named `key`, lower-cased. A name or value that HTTP
/// refuses turns the builder into a failed one; a failed builder stays
/// failed. The header map panics once it holds too many names, so the
/// builder must hold fewer than 6554 distinct names (below that, no growth of
/// the map can fail).
#[verifier::external_body]
fn add_header(builder: RequestBuilder, key: &str, value: &str) -> (b: RequestBuilder)
    requires
        !builder_failed(builder) ==> builder_headers(builder).dom().len() < 6554,
    ensures
        builder_failed(builder) ==> builder_failed(b),
        !builder_failed(builder) ==> (builder_failed(b) <==> !(valid_header_name(key@)
            && valid_header_value(value@))),
        !builder_failed(b) ==> builder_headers(b) == push_header(
            builder_headers(builder),
            lower(key@),
            value@,
        ),
        !builder_failed(b) ==> builder_query(b) == builder_query(builder),
        !builder_failed(b) ==> builder_url_len(b) == builder_url_len(builder),
{
    builder.header(key, value)
}

/// Calls `reqwest::blocking::RequestBuilder::query` with the single pair
/// `(key, value)`: appends it, URL-encoded, to the query of the URL, so the
/// decoded query gains that pair at its end. It never fails the builder, and
/// leaves a failed one as it is. The `url` crate panics when the text of the
/// URL outgrows `u32::MAX` bytes, so the grown URL must stay within that.
#[verifier::external_body]
fn add_query(builder: RequestBuilder, key: &str, value: &str) -> (b: RequestBuilder)
    requires
        !builder_failed(builder) ==> builder_url_len(builder) + pair_growth(key@, value@)
            <= u32::MAX,
    ensures
        builder_failed(b) == builder_failed(builder),
        !builder_failed(b) ==> builder_query(b) == builder_query(builder).push((key@, value@)),
        !builder_failed(b) ==> builder_headers(b) == builder_headers(builder),
        !builder_failed(b) ==> builder_url_len(b) <= builder_url_len(builder) + pair_growth(
            key@,
            value@,
        ),
{
    builder.query(&[(key, value)])
}

/// Lower-casing changes the letters `A` to `Z` into `a` to `z` and leaves
/// every other character as it is.
pub proof fn lemma_ascii_lower(c: char)
    ensures
        65 <= c as u32 <= 90 ==> ascii_lower(c) as u32 == c as u32 + 32,
        !(65 <= c as u32 <= 90) ==> ascii_lower(c) == c,
        lower(seq![c]) == seq![ascii_lower(c)],
{
    assert(lower(seq![c]) =~= seq![ascii_lower(c)]);
}

/// The query pairs as text: one pair for each plan pair, in order, each the
/// key and the value as given.
pub proof fn lemma_query_view(query: Seq<(String, String)>)
    ensures
        query_view(query).len() == query.len(),
        forall|i: int|
            0 <= i < query.len() ==> #[trigger] query_view(query)[i] == (query[i].0@, query[i].1@),
{
}

/// The growth bound of a list of query pairs is the sum of the growth of each
/// pair: for one pair it is `2 + 3 * (bytes of key + bytes of value)`, and for
/// two lists one after the other it adds up.
pub proof fn lemma_query_growth(a: Seq<(String, String)>, b: Seq<(String, String)>)
    ensures
        query_growth(a + b) == query_growth(a) + query_growth(b),
        a.len() == 1 ==> query_growth(a) == 2 + 3 * (vstd::utf8::encode_utf8(a[0].0@).len()
            + vstd::utf8::encode_utf8(a[0].1@).len()),
    decreases b.len(),
{
    if a.len() == 1 {
        assert(a.drop_last() =~= Seq::<(String, String)>::empty());
        assert(query_growth(a.drop_last()) == 0);
        assert(a.last() == a[0]);
    }
    if b.len() == 0 {
        assert(a + b =~= a);
    } else {
        lemma_query_growth(a, b.drop_last());
        assert((a + b).drop_last() =~= a + b.drop_last());
    }
}

/// Whether a header is named `n`, names compared lower-cased.
pub open spec fn named(n: Seq<char>) -> spec_fn((String, String)) -> bool {
    |p: (String, String)| lower(p.0@) == n
}

/// The values of the headers `headers`, in order.
pub open spec fn values_of(headers: Seq<(String, String)>) -> Seq<Seq<char>> {
    headers.map_values(|p: (String, String)| p.1@)
}

/// The headers that a list of headers adds to a map: each name that the map
/// or the list holds, and no other; under each name, the values the map had,
/// then the values that the list gives that name (lower-cased), in order.
pub proof fn lemma_headers_onto(m: Map<Seq<char>, Seq<Seq<char>>>, headers: Seq<(String, String)>)
    ensures
        forall|n: Seq<char>|
            #[trigger] headers_onto(m, headers).dom().contains(n) <==> m.dom().contains(n)
                || headers.filter(named(n)).len() > 0,
        forall|n: Seq<char>|
            #[trigger] headers_onto(m, headers).dom().contains(n) ==> headers_onto(m, headers)[n] == (
            if m.dom().contains(n) {
                m[n]
            } else {
                Seq::empty()
            }) + values_of(headers.filter(named(n))),
    decreases headers.len(),
{
    if headers.len() > 0 {
        let d = headers.drop_last();
        let last = headers.last();
        lemma_headers_onto(m, d);
        reveal(Seq::filter);
        assert forall|n: Seq<char>|
            #[trigger] headers_onto(m, headers).dom().contains(n) <==> m.dom().contains(n)
                || headers.filter(named(n)).len() > 0 by {
            assert(headers_onto(m, headers) == push_header(headers_onto(m, d), lower(last.0@), last.1@));
            assert(headers_onto(m, headers).dom().contains(n) <==> headers_onto(m, d).dom().contains(n)
                || n == lower(last.0@));
            assert(named(n)(last) <==> lower(last.0@) == n);
            assert(headers.filter(named(n)) == if named(n)(last) {
                d.filter(named(n)).push(last)
            } else {
                d.filter(named(n))
            });
        }
        assert forall|n: Seq<char>|
            #[trigger] headers_onto(m, headers).dom().contains(n) implies headers_onto(m, headers)[n]
                == (if m.dom().contains(n) {
                m[n]
            } else {
                Seq::empty()
            }) + values_of(headers.filter(named(n))) by {
            assert(headers_onto(m, headers) == push_header(headers_onto(m, d), lower(last.0@), last.1@));
            assert(named(n)(last) <==> lower(last.0@) == n);
            let base = if m.dom().contains(n) {
                m[n]
            } else {
                Seq::<Seq<char>>::empty()
            };
            assert(headers.filter(named(n)) == if named(n)(last) {
                d.filter(named(n)).push(last)
            } else {
                d.filter(named(n))
            });
            if named(n)(last) {
                assert(values_of(d.filter(named(n)).push(last)) =~= values_of(d.filter(named(n))).push(
                    last.1@,
                ));
                if headers_onto(m, d).dom().contains(n) {
                    assert(base + values_of(d.filter(named(n))).push(last.1@) =~= (base + values_of(
                        d.filter(named(n)),
                    )).push(last.1@));
                } else {
                    assert(!m.dom().contains(n));
                    assert(d.filter(named(n)).len() == 0);
                    assert(base + values_of(d.filter(named(n)).push(last)) =~= seq![last.1@]);
                }
            }
        }
    }
}

proof fn lemma_header_in_map(m: Map<Seq<char>, Seq<Seq<char>>>, headers: Seq<(String, String)>, i: int)
    requires
        0 <= i < headers.len(),
    ensures
        headers_onto(m, headers).dom().contains(lower(headers[i].0@)),
        headers_onto(m, headers)[lower(headers[i].0@)].contains(headers[i].1@),
    decreases headers.len(),
{
    let d = headers.drop_last();
    if i < headers.len() - 1 {
        lemma_header_in_map(m, d, i);
        assert(d[i] == headers[i]);
        let n = lower(headers[i].0@);
        let k = choose|k: int| 0 <= k < headers_onto(m, d)[n].len() && headers_onto(m, d)[n][k]
            == headers[i].1@;
        if n == lower(headers.last().0@) {
            assert(headers_onto(m, headers)[n][k] == headers[i].1@);
        }
    } else {
        let n = lower(headers[i].0@);
        let s = headers_onto(m, headers)[n];
        assert(s[s.len() - 1] == headers[i].1@);
    }
}

proof fn lemma_names_step(m: Map<Seq<char>, Seq<Seq<char>>>, headers: Seq<(String, String)>)
    requires
        m.dom().finite(),
    ensures
        headers_onto(m, headers).dom() == m.dom() + header_names(headers),
        header_names(headers).finite(),
    decreases headers.len(),
{
    if headers.len() == 0 {
        assert(m.dom() + header_names(headers) =~= m.dom());
    } else {
        lemma_names_step(m, headers.drop_last());
        assert(headers_onto(m, headers).dom() =~= m.dom() + header_names(headers));
    }
}

proof fn lemma_names_prefix(headers: Seq<(String, String)>, i: int)
    requires
        0 <= i <= headers.len(),
    ensures
        header_names(headers.take(i)).subset_of(header_names(headers)),
    decreases headers.len() - i,
{
    if i < headers.len() {
        lemma_names_prefix(headers, i + 1);
        assert(headers.take(i + 1).drop_last() =~= headers.take(i));
    } else {
        assert(headers.take(i) =~= headers);
    }
}

proof fn lemma_growth_prefix(query: Seq<(String, String)>, i: int)
    requires
        0 <= i <= query.len(),
    ensures
        query_growth(query.take(i)) <= query_growth(query),
    decreases query.len() - i,
{
    if i < query.len() {
        lemma_growth_prefix(query, i + 1);
        assert(query.take(i + 1).drop_last() =~= query.take(i));
    } else {
        assert(query.take(i) =~= query);
    }
}

/// Turns a plan into a reqwest request on `client`: a `GET` to the plan's URL
/// with each header of the plan, then each query pair, in order (see
/// `built_from`). The plan must name fewer than 6553 distinct headers, and its
/// URL must stay within the `url` crate's limit (see `url_fits`): reqwest
/// panics otherwise.
pub fn build_request(client: &Client, plan: &RequestPlan) -> (b: RequestBuilder)
    requires
        header_names(plan.headers@).len() < 6553,
        url_fits(*plan),
    ensures
        built_from(b, *plan),
        !builder_failed(b) ==> builder_query(b).len() == get_outcome(plan.url@).2.len()
            + plan.query@.len(),
        !builder_failed(b) ==> forall|i: int|
            0 <= i < get_outcome(plan.url@).2.len() ==> #[trigger] builder_query(b)[i]
                == get_outcome(plan.url@).2[i],
        !builder_failed(b) ==> forall|i: int|
            0 <= i < plan.query@.len() ==> #[trigger] builder_query(b)[get_outcome(plan.url@).2.len()
                + i] == (plan.query@[i].0@, plan.query@[i].1@),
        !builder_failed(b) ==> forall|i: int|
            0 <= i < plan.headers@.len() ==> {
                &&& builder_headers(b).dom().contains(lower((#[trigger] plan.headers@[i]).0@))
                &&& builder_headers(b)[lower(plan.headers@[i].0@)].contains(plan.headers@[i].1@)
            },
{
    let ghost outcome = get_outcome(plan.url@);
    let mut builder = start_get(client, plan.url.as_str());
    let n_headers = plan.headers.len();
    proof {
        assert(plan.headers@.take(0) =~= Seq::<(String, String)>::empty());
        lemma_names_step(Map::empty(), plan.headers@);
    }
    for i in 0..n_headers
        invariant
            n_headers == plan.headers@.len(),
            header_names(plan.headers@).len() < 6553,
            header_names(plan.headers@).finite(),
            url_fits(*plan),
            outcome == get_outcome(plan.url@),
            builder_failed(builder) <==> !outcome.0 || !headers_valid(
                plan.headers@.take(i as int),
            ),
            !builder_failed(builder) ==> builder_headers(builder) == headers_onto(
                outcome.1,
                plan.headers@.take(i as int),
            ),
            !builder_failed(builder) ==> builder_query(builder) == outcome.2,
            !builder_failed(builder) ==> outcome.1.dom().finite() && outcome.1.dom().len() <= 1,
            !builder_failed(builder) && !plan.url@.contains('@') ==> outcome.1.dom().len() == 0,
            !builder_failed(builder) && !plan.url@.contains('?') ==> outcome.2.len() == 0,
            !builder_failed(builder) ==> parsed_url(plan.url@) is Some,
            !builder_failed(builder) ==> builder_url_len(builder) <= utf8_len(
                parsed_url(plan.url@).unwrap(),
            ),
    {
        let (key, value) = &plan.headers[i];
        let ghost prev = plan.headers@.take(i as int);
        let ghost next = plan.headers@.take(i + 1);
        proof {
            assert(next.drop_last() =~= prev);
            assert(next.last() == plan.headers@[i as int]);
            if !builder_failed(builder) {
                lemma_names_step(outcome.1, prev);
                lemma_names_prefix(plan.headers@, i as int);
                vstd::set_lib::lemma_len_subset(header_names(prev), header_names(plan.headers@));
                vstd::set_lib::lemma_len_union(outcome.1.dom(), header_names(prev));
            }
        }
        builder = add_header(builder, key.as_str(), value.as_str());
        proof {
            assert(headers_valid(next) <==> headers_valid(prev) && valid_header_name(
                plan.headers@[i as int].0@,
            ) && valid_header_value(plan.headers@[i as int].1@)) by {
                if headers_valid(prev) && valid_header_name(plan.headers@[i as int].0@)
                    && valid_header_value(plan.headers@[i as int].1@) {
                    assert forall|j: int| 0 <= j < next.len() implies valid_header_name(
                        (#[trigger] next[j]).0@,
                    ) && valid_header_value(next[j].1@) by {
                        if j < i {
                            assert(next[j] == prev[j]);
                        }
                    }
                }
                if headers_valid(next) {
                    assert forall|j: int| 0 <= j < prev.len() implies valid_header_name(
                        (#[trigger] prev[j]).0@,
                    ) && valid_header_value(prev[j].1@) by {
                        assert(next[j] == prev[j]);
                    }
                    assert(next[i as int] == plan.headers@[i as int]);
                }
            }
        }
    }
    proof {
        assert(plan.headers@.take(n_headers as int) =~= plan.headers@);
        assert(plan.query@.take(0) =~= Seq::<(String, String)>::empty());
        assert(query_view(plan.query@.take(0)) =~= Seq::<(Seq<char>, Seq<char>)>::empty());
        assert(outcome.2 + query_view(plan.query@.take(0)) =~= outcome.2);
    }
    let n_query = plan.query.len();
    for i in 0..n_query
        invariant
            n_query == plan.query@.len(),
            url_fits(*plan),
            outcome == get_outcome(plan.url@),
            builder_failed(builder) <==> !outcome.0 || !headers_valid(plan.headers@),
            !builder_failed(builder) ==> builder_headers(builder) == headers_onto(
                outcome.1,
                plan.headers@,
            ),
            !builder_failed(builder) ==> builder_query(builder) == outcome.2 + query_view(
                plan.query@.take(i as int),
            ),
            !builder_failed(builder) && !plan.url@.contains('@') ==> outcome.1.dom().len() == 0,
            !builder_failed(builder) && !plan.url@.contains('?') ==> outcome.2.len() == 0,
            !builder_failed(builder) ==> parsed_url(plan.url@) is Some,
            !builder_failed(builder) ==> builder_url_len(builder) <= utf8_len(
                parsed_url(plan.url@).unwrap(),
            ) + query_growth(plan.query@.take(i as int)),
    {
        let (key, value) = &plan.query[i];
        proof {
            let next = plan.query@.take(i + 1);
            assert(next.drop_last() =~= plan.query@.take(i as int));
            assert(next.last() == plan.query@[i as int]);
            lemma_growth_prefix(plan.query@, i + 1);
        }
        builder = add_query(builder, key.as_str(), value.as_str());
        proof {
            assert(query_view(plan.query@.take(i + 1)) =~= query_view(
                plan.query@.take(i as int),
            ).push((plan.query@[i as int].0@, plan.query@[i as int].1@)));
            if !builder_failed(builder) {
                assert(builder_query(builder) =~= outcome.2 + query_view(
                    plan.query@.take(i + 1),
                ));
            }
        }
    }
    proof {
        assert(plan.query@.take(n_query as int) =~= plan.query@);
        if !builder_failed(builder) {
            if !plan.url@.contains('@') {
                assert(outcome.1 =~= Map::<Seq<char>, Seq<Seq<char>>>::empty());
            }
            if !plan.url@.contains('?') {
                assert(builder_query(builder) =~= query_view(plan.query@));
            }
            lemma_query_view(plan.query@);
            lemma_headers_onto(outcome.1, plan.headers@);
            assert forall|i: int| 0 <= i < plan.headers@.len() implies {
                &&& builder_headers(builder).dom().contains(lower((#[trigger] plan.headers@[i]).0@))
                &&& builder_headers(builder)[lower(plan.headers@[i].0@)].contains(plan.headers@[i].1@)
            } by {
                lemma_header_in_map(outcome.1, plan.headers@, i);
            }
        }
    }
    builder
}

/// Turns a plan into a reqwest request on `client`, as `build_request` does,
/// when the URL with every query pair appended stays within the `url` crate's
/// limit; `None` otherwise, where reqwest would panic.
pub fn try_build_request(client: &Client, plan: &RequestPlan) -> (r: Option<RequestBuilder>)
    requires
        header_names(plan.headers@).len() < 6553,
    ensures
        r is None <==> !url_fits(*plan),
        r matches Some(b) ==> built_from(b, *plan),
        parsed_url(plan.url@) is None ==> r is Some,
        parsed_url(plan.url@) is Some && utf8_len(parsed_url(plan.url@).unwrap()) + query_growth(
            plan.query@,
        ) <= u32::MAX ==> r is Some,
        r is None ==> parsed_url(plan.url@) is Some && utf8_len(parsed_url(plan.url@).unwrap())
            + query_growth(plan.query@) > u32::MAX,
{
    if let Some(text) = parse_url(plan.url.as_str()) {
        let limit: u128 = 0xffff_ffff;
        let text_bytes = text.as_str().as_bytes().len();
        assert(text_bytes == utf8_len(text@));
        let mut length: u128 = text_bytes as u128;
        let n = plan.query.len();
        if length > limit {
            proof {
                lemma_growth_prefix(plan.query@, 0);
            }
            return None;
        }
        assert(plan.query@.take(0) =~= Seq::<(String, String)>::empty());
        for i in 0..n
            invariant
                n == plan.query@.len(),
                parsed_url(plan.url@) == Some(text@),
                length == utf8_len(text@) + query_growth(plan.query@.take(i as int)),
                length <= limit,
                limit == u32::MAX,
        {
            let (key, value) = &plan.query[i];
            let key_bytes = key.as_str().as_bytes().len();
            let value_bytes = value.as_str().as_bytes().len();
            let grown = length + 2 + 3 * (key_bytes as u128 + value_bytes as u128);
            proof {
                let next = plan.query@.take(i + 1);
                assert(next.drop_last() =~= plan.query@.take(i as int));
                assert(next.last() == plan.query@[i as int]);
            }
            if grown > limit {
                proof {
                    lemma_growth_prefix(plan.query@, i + 1);
                }
                return None;
            }
            length = grown;
        }
        assert(plan.query@.take(n as int) =~= plan.query@);
    }
    Some(build_request(client, plan))
}

/// Lower-cases `c` by ASCII rules.
fn lower_char(c: char) -> (r: char)
    ensures
        r == ascii_lower(c),
{
    let u = c as u32;
    if 65 <= u && u <= 90 {
        ((u as u8) + 32) as char
    } else {
        c
    }
}

/// The characters of `s`, lower-cased by ASCII rules.
fn lower_chars(s: &str) -> (r: Vec<char>)
    ensures
        r@ == lower(s@),
{
    let n = s.unicode_len();
    let mut r: Vec<char> = Vec::new();
    for i in 0..n
        invariant
            n == s@.len(),
            r@ == lower(s@.take(i as int)),
    {
        let c = s.get_char(i);
        r.push(lower_char(c));
        assert(lower(s@.take(i + 1)) =~= lower(s@.take(i as int)).push(ascii_lower(c)));
    }
    assert(s@.take(n as int) =~= s@);
    r
}

/// Whether two character vectors hold the same characters.
fn same_chars(a: &Vec<char>, b: &Vec<char>) -> (r: bool)
    ensures
        r == (a@ == b@),
{
    if a.len() != b.len() {
        return false;
    }
    let n = a.len();
    for i in 0..n
        invariant
            n == a@.len(),
            n == b@.len(),
            forall|j: int| 0 <= j < i ==> a@[j] == b@[j],
    {
        if a[i] != b[i] {
            return false;
        }
    }
    assert(a@ =~= b@);
    true
}

/// `x` is the contents of one of the vectors `v`.
spec fn listed(v: Seq<Vec<char>>, x: Seq<char>) -> bool {
    exists|j: int| 0 <= j < v.len() && (#[trigger] v[j])@ == x
}

/// How many distinct header names `headers` holds, names compared
/// lower-cased as reqwest stores them.
pub fn count_header_names(headers: &Vec<(String, String)>) -> (n: usize)
    ensures
        n == header_names(headers@).len(),
{
    let mut seen: Vec<Vec<char>> = Vec::new();
    let count = headers.len();
    proof {
        assert(headers@.take(0) =~= Seq::<(String, String)>::empty());
    }
    for i in 0..count
        invariant
            count == headers@.len(),
            header_names(headers@.take(i as int)).finite(),
            seen@.len() == header_names(headers@.take(i as int)).len(),
            forall|x: Seq<char>|
                #![trigger header_names(headers@.take(i as int)).contains(x)]
                #![trigger listed(seen@, x)]
                header_names(headers@.take(i as int)).contains(x) <==> listed(seen@, x),
    {
        let name = lower_chars(headers[i].0.as_str());
        let ghost prev = headers@.take(i as int);
        let ghost next = headers@.take(i + 1);
        proof {
            assert(next.drop_last() =~= prev);
            assert(next.last() == headers@[i as int]);
            assert(header_names(next) == header_names(prev).insert(name@));
        }
        let mut found = false;
        let m = seen.len();
        for j in 0..m
            invariant
                m == seen@.len(),
                found <==> exists|k: int| 0 <= k < j && (#[trigger] seen@[k])@ == name@,
        {
            if same_chars(&seen[j], &name) {
                found = true;
            }
        }
        let ghost before = seen@;
        if !found {
            proof {
                if header_names(prev).contains(name@) {
                    assert(listed(before, name@));
                    let k = choose|k: int| 0 <= k < before.len() && (#[trigger] before[k])@ == name@;
                    assert(seen@[k]@ == name@);
                }
            }
            seen.push(name);
            proof {
                assert forall|x: Seq<char>|
                    #![trigger header_names(next).contains(x)]
                    #![trigger listed(seen@, x)]
                    header_names(next).contains(x) <==> listed(seen@, x) by {
                    if x == name@ {
                        assert(seen@[seen@.len() - 1]@ == x);
                    } else {
                        if header_names(prev).contains(x) {
                            assert(listed(before, x));
                            let j = choose|j: int| 0 <= j < before.len() && (#[trigger] before[j])@ == x;
                            assert(seen@[j] == before[j]);
                        }
                        if listed(seen@, x) {
                            let j = choose|j: int| 0 <= j < seen@.len() && (#[trigger] seen@[j])@ == x;
                            assert(before[j] == seen@[j]);
                            assert(listed(before, x));
                        }
                    }
                }
            }
        } else {
            proof {
                let k = choose|k: int| 0 <= k < m && (#[trigger] seen@[k])@ == name@;
                assert(listed(seen@, name@));
                assert(header_names(prev).contains(name@));
                assert(header_names(next) =~= header_names(prev));
            }
        }
    }
    assert(headers@.take(count as int) =~= headers@);
    seen.len()
}

} // verus!
