use vstd::prelude::*;
use crate::decode::{law_decode_without_percent, url_decode, url_decoded};
use crate::text::{chars_of, has_text, occurs_at, string_of};

verus! {

/// The views of a list of owned string pairs.
pub open spec fn pair_views(entries: Seq<(String, String)>) -> Seq<(Seq<char>, Seq<char>)> {
    entries.map_values(|p: (String, String)| (p.0@, p.1@))
}

/// The map obtained by inserting the pairs one after the other into an empty
/// map: a later pair with the same key replaces an earlier one.
pub open spec fn map_of_pairs(pairs: Seq<(Seq<char>, Seq<char>)>) -> Map<Seq<char>, Seq<char>>
    decreases pairs.len(),
{
    if pairs.len() == 0 {
        Map::empty()
    } else {
        map_of_pairs(pairs.drop_last()).insert(pairs.last().0, pairs.last().1)
    }
}

/// No key occurs twice.
pub open spec fn keys_distinct(pairs: Seq<(Seq<char>, Seq<char>)>) -> bool {
    forall|i: int, j: int| 0 <= i < j < pairs.len() ==> #[trigger] pairs[i].0 != #[trigger] pairs[j].0
}

/// With distinct keys, the map holds a key exactly where some pair holds it,
/// and maps it to that pair's value.
proof fn lemma_map_of_distinct_pairs(pairs: Seq<(Seq<char>, Seq<char>)>, k: Seq<char>)
    requires
        keys_distinct(pairs),
    ensures
        map_of_pairs(pairs).contains_key(k) <==> exists|i: int| 0 <= i < pairs.len() && #[trigger] pairs[i].0 == k,
        forall|i: int| 0 <= i < pairs.len() && #[trigger] pairs[i].0 == k ==> map_of_pairs(pairs)[k] == pairs[i].1,
    decreases pairs.len(),
{
    if pairs.len() > 0 {
        let init = pairs.drop_last();
        assert(keys_distinct(init)) by {
            assert forall|i: int, j: int| 0 <= i < j < init.len() implies #[trigger] init[i].0 != #[trigger] init[j].0 by {
                assert(init[i] == pairs[i] && init[j] == pairs[j]);
            }
        }
        lemma_map_of_distinct_pairs(init, k);
        if map_of_pairs(pairs).contains_key(k) {
            if k != pairs.last().0 {
                let i = choose|i: int| 0 <= i < init.len() && #[trigger] init[i].0 == k;
                assert(pairs[i].0 == k);
            }
        }
        if exists|i: int| 0 <= i < pairs.len() && #[trigger] pairs[i].0 == k {
            let i = choose|i: int| 0 <= i < pairs.len() && #[trigger] pairs[i].0 == k;
            if i < pairs.len() - 1 {
                assert(init[i].0 == k);
            }
        }
        assert forall|i: int| 0 <= i < pairs.len() && #[trigger] pairs[i].0 == k implies map_of_pairs(pairs)[k] == pairs[i].1 by {
            if i < pairs.len() - 1 {
                assert(init[i] == pairs[i]);
            }
        }
    }
}

/// Replacing the value of a pair whose key is present is inserting into the map.
proof fn lemma_map_of_update(pairs: Seq<(Seq<char>, Seq<char>)>, i: int, v: Seq<char>)
    requires
        keys_distinct(pairs),
        0 <= i < pairs.len(),
    ensures
        map_of_pairs(pairs.update(i, (pairs[i].0, v))) == map_of_pairs(pairs).insert(pairs[i].0, v),
        keys_distinct(pairs.update(i, (pairs[i].0, v))),
    decreases pairs.len(),
{
    let k = pairs[i].0;
    let upd = pairs.update(i, (k, v));
    let init = pairs.drop_last();
    assert(keys_distinct(init)) by {
        assert forall|a: int, b: int| 0 <= a < b < init.len() implies #[trigger] init[a].0 != #[trigger] init[b].0 by {
            assert(init[a] == pairs[a] && init[b] == pairs[b]);
        }
    }
    assert(keys_distinct(upd)) by {
        assert forall|a: int, b: int| 0 <= a < b < upd.len() implies #[trigger] upd[a].0 != #[trigger] upd[b].0 by {
            assert(upd[a].0 == pairs[a].0 && upd[b].0 == pairs[b].0);
        }
    }
    if i == pairs.len() - 1 {
        assert(upd.drop_last() == init);
    } else {
        lemma_map_of_update(init, i, v);
        assert(upd.drop_last() == init.update(i, (k, v)));
        assert(pairs.last().0 != k);
        assert(map_of_pairs(upd) == map_of_pairs(pairs).insert(k, v));
    }
}

/// The decoded fields of a query string, in the order in which they occur:
/// a map from field names to values in which the last of several fields with
/// the same name wins.
pub struct QueryMap {
    entries: Vec<(String, String)>,
}

impl QueryMap {
    #[verifier::type_invariant]
    spec fn keys_are_distinct(self) -> bool {
        keys_distinct(pair_views(self.entries@))
    }

    /// The entries, one per distinct key.
    pub closed spec fn pairs(&self) -> Seq<(Seq<char>, Seq<char>)> {
        pair_views(self.entries@)
    }
}

impl View for QueryMap {
    type V = Map<Seq<char>, Seq<char>>;

    closed spec fn view(&self) -> Map<Seq<char>, Seq<char>> {
        map_of_pairs(pair_views(self.entries@))
    }
}

impl QueryMap {
    /// An empty map.
    pub fn new() -> (m: QueryMap)
        ensures
            m@ == Map::<Seq<char>, Seq<char>>::empty(),
            m.pairs().len() == 0,
    {
        QueryMap { entries: Vec::new() }
    }

    /// The index of the entry for `key`, if there is one.
    fn find(&self, key: &str) -> (r: Option<usize>)
        ensures
            r matches Some(i) ==> i < self.pairs().len() && self.pairs()[i as int].0 == key@,
            r is None ==> forall|i: int| 0 <= i < self.pairs().len() ==> #[trigger] self.pairs()[i].0 != key@,
    {
        let k = key.to_owned();
        let n = self.entries.len();
        for i in 0..n
            invariant
                n == self.entries@.len(),
                k@ == key@,
                forall|j: int| 0 <= j < i ==> #[trigger] self.pairs()[j].0 != key@,
        {
            if self.entries[i].0 == k {
                return Some(i);
            }
        }
        None
    }

    /// The value stored under `key`.
    pub fn get(&self, key: &str) -> (r: Option<&String>)
        ensures
            r matches Some(v) ==> self@.contains_key(key@) && self@[key@] == v@,
            r is None ==> !self@.contains_key(key@),
    {
        proof {
            use_type_invariant(self);
            lemma_map_of_distinct_pairs(self.pairs(), key@);
        }
        match self.find(key) {
            Some(i) => {
                assert(self.pairs()[i as int].1 == self.entries@[i as int].1@);
                Some(&self.entries[i].1)
            },
            None => None,
        }
    }

    /// Stores `value` under `key`, replacing the value stored there before.
    pub fn insert(&mut self, key: String, value: String)
        ensures
            final(self)@ == old(self)@.insert(key@, value@),
    {
        proof {
            use_type_invariant(&*self);
        }
        let ghost before = self.pairs();
        match self.find(key.as_str()) {
            Some(i) => {
                proof {
                    lemma_map_of_update(before, i as int, value@);
                }
                let ghost vv = value@;
                let mut entries = Vec::new();
                std::mem::swap(&mut entries, &mut self.entries);
                entries.set(i, (key, value));
                assert(pair_views(entries@) == before.update(i as int, (before[i as int].0, vv)));
                self.entries = entries;
            },
            None => {
                let mut entries = Vec::new();
                std::mem::swap(&mut entries, &mut self.entries);
                let ghost kv = key@;
                let ghost vv = value@;
                entries.push((key, value));
                assert(pair_views(entries@) == before.push((kv, vv)));
                assert(pair_views(entries@).drop_last() == before);
                assert(keys_distinct(pair_views(entries@))) by {
                    let p = pair_views(entries@);
                    assert forall|a: int, b: int| 0 <= a < b < p.len() implies #[trigger] p[a].0 != #[trigger] p[b].0 by {
                        if b == p.len() - 1 {
                            assert(p[a] == before[a]);
                        } else {
                            assert(p[a] == before[a] && p[b] == before[b]);
                        }
                    }
                }
                self.entries = entries;
            },
        }
    }

    /// The number of distinct keys.
    pub fn len(&self) -> (n: usize)
        ensures
            n == self.pairs().len(),
            n == self@.dom().len(),
    {
        proof {
            use_type_invariant(self);
            lemma_distinct_pairs_dom_len(self.pairs());
        }
        self.entries.len()
    }

    /// The entries, each key once.
    pub fn entries(&self) -> (r: &Vec<(String, String)>)
        ensures
            pair_views(r@) == self.pairs(),
            keys_distinct(self.pairs()),
            map_of_pairs(self.pairs()) == self@,
    {
        proof {
            use_type_invariant(self);
        }
        &self.entries
    }
}

/// With distinct keys, the map has one key per pair.
proof fn lemma_distinct_pairs_dom_len(pairs: Seq<(Seq<char>, Seq<char>)>)
    requires
        keys_distinct(pairs),
    ensures
        map_of_pairs(pairs).dom().finite(),
        map_of_pairs(pairs).dom().len() == pairs.len(),
    decreases pairs.len(),
{
    if pairs.len() > 0 {
        let init = pairs.drop_last();
        assert(keys_distinct(init)) by {
            assert forall|i: int, j: int| 0 <= i < j < init.len() implies #[trigger] init[i].0 != #[trigger] init[j].0 by {
                assert(init[i] == pairs[i] && init[j] == pairs[j]);
            }
        }
        lemma_distinct_pairs_dom_len(init);
        lemma_map_of_distinct_pairs(init, pairs.last().0);
        if map_of_pairs(init).contains_key(pairs.last().0) {
            let i = choose|i: int| 0 <= i < init.len() && #[trigger] init[i].0 == pairs.last().0;
            assert(pairs[i].0 == pairs[pairs.len() - 1].0);
        }
    }
}

#[verifier::external_type_specification]
#[verifier::external_body]
pub struct ExRegex(regex::Regex);

/// Whether `regex::Regex::new` accepts the pattern (with the crate's default
/// limits), a function of the pattern alone.
pub uninterp spec fn regex_compiles(pattern: Seq<char>) -> bool;

/// The index of the last `=` at or before index `k`, not counting the first
/// character.
pub open spec fn last_eq_at_or_before(piece: Seq<char>, k: int) -> Option<int>
    decreases k,
{
    if k < 1 {
        None
    } else if piece[k] == '=' {
        Some(k)
    } else {
        last_eq_at_or_before(piece, k - 1)
    }
}

/// The field in one piece of a query text between `&`s: where the piece holds
/// a `=` with at least one character on each side, the name runs up to the
/// last such `=` and the value is the rest of the piece.
pub open spec fn piece_field(piece: Seq<char>) -> Option<(Seq<char>, Seq<char>)> {
    match last_eq_at_or_before(piece, piece.len() - 2) {
        Some(j) => Some((piece.subrange(0, j), piece.subrange(j + 1, piece.len() as int))),
        None => None,
    }
}

/// The fields of the pieces, in order; a piece without a field gives none.
pub open spec fn fields_of_pieces(pieces: Seq<Seq<char>>) -> Seq<(Seq<char>, Seq<char>)>
    decreases pieces.len(),
{
    if pieces.len() == 0 {
        seq![]
    } else {
        match piece_field(pieces.last()) {
            Some(f) => fields_of_pieces(pieces.drop_last()).push(f),
            None => fields_of_pieces(pieces.drop_last()),
        }
    }
}

/// The `(name, value)` pairs that the query field pattern `([^&]+)=([^&]+)&?`
/// captures in a text, match after match: a match cannot hold `&`, the
/// greedy name backs off only as far as the last `=` that leaves the value a
/// character, the greedy value runs to the next `&`, and the `&` is taken with
/// the match; so each piece between `&`s gives `piece_field`.
pub open spec fn query_fields(text: Seq<char>) -> Seq<(Seq<char>, Seq<char>)> {
    fields_of_pieces(split_on(text, '&'))
}

/// A compiled regular expression together with the pattern it was compiled from.
pub struct CompiledPattern {
    regex: regex::Regex,
    source: Ghost<Seq<char>>,
}

impl CompiledPattern {
    /// The pattern that was compiled.
    pub closed spec fn source(&self) -> Seq<char> {
        self.source@
    }
}

/// `regex::Regex::new`: compiles `pattern`. The contract claims that the call
/// succeeds exactly where `regex_compiles` holds of the pattern, a name for
/// what the crate decides from the pattern alone; the compile error is dropped.
#[verifier::external_body]
fn compile_pattern(pattern: &str) -> (r: Option<CompiledPattern>)
    ensures
        r is Some <==> regex_compiles(pattern@),
        r matches Some(p) ==> p.source() == pattern@,
{
    regex::Regex::new(pattern).ok().map(|regex| CompiledPattern { regex, source: Ghost(pattern@) })
}

/// The pattern of one `name=value` field of a query string.
pub open spec fn query_field_pattern() -> Seq<char> {
    "([^&]+)=([^&]+)&?"@
}

/// `regex::Regex::captures_iter`, each match taken apart with
/// `regex::Captures::extract` into its two groups, which are copied into owned
/// strings. `extract` panics unless the pattern has exactly two groups that
/// take part in every match, so the call is made only with the query field
/// pattern. The crate finds leftmost-first, non-overlapping matches, each
/// search starting where the last match ended. The contract claims that the
/// pairs are `query_fields` of the haystack: what that search gives for the
/// query field pattern.
#[verifier::external_body]
fn capture_pairs(pattern: &CompiledPattern, haystack: &str) -> (pairs: Vec<(String, String)>)
    requires
        pattern.source() == query_field_pattern(),
    ensures
        pair_views(pairs@) == query_fields(haystack@),
{
    pattern.regex.captures_iter(haystack).map(|c| {
        let (_, [k, v]) = c.extract();
        (k.to_string(), v.to_string())
    }).collect()
}

/// Every name and every value has at least one character, and no name or
/// value holds `&`.
pub open spec fn field_shapes(fields: Seq<(Seq<char>, Seq<char>)>) -> bool {
    forall|i: int|
        0 <= i < fields.len() ==> (#[trigger] fields[i]).0.len() > 0 && !fields[i].0.contains('&')
            && fields[i].1.len() > 0 && !fields[i].1.contains('&')
}

/// Every name of the map has at least one character and holds no `&`, and
/// every value has at least one character.
pub open spec fn map_shapes(m: Map<Seq<char>, Seq<char>>) -> bool {
    forall|k: Seq<char>| #[trigger] m.contains_key(k) ==> k.len() > 0 && !k.contains('&') && m[k].len() > 0
}

/// A non-empty text decodes to a non-empty text.
proof fn lemma_decoded_nonempty(text: Seq<char>)
    requires
        text.len() > 0,
        url_decoded(text) is Some,
    ensures
        url_decoded(text).unwrap().len() > 0,
{
    let bytes = vstd::utf8::encode_utf8(text);
    assert(vstd::utf8::encode_scalar(text[0] as u32).len() > 0);
    assert(bytes.len() > 0);
    assert(crate::decode::percent_decode(bytes).len() > 0);
}

/// Decoded fields keep the names, and non-empty values stay non-empty.
proof fn lemma_decoded_shapes(fields: Seq<(Seq<char>, Seq<char>)>)
    requires
        field_shapes(fields),
        decoded_fields(fields) is Some,
    ensures
        ({
            let d = decoded_fields(fields).unwrap();
            &&& d.len() == fields.len()
            &&& forall|i: int| 0 <= i < d.len() ==> (#[trigger] d[i]).0 == fields[i].0 && d[i].1.len() > 0
        }),
    decreases fields.len(),
{
    if fields.len() > 0 {
        let init = fields.drop_last();
        assert forall|i: int| 0 <= i < init.len() implies (#[trigger] init[i]).0.len() > 0 && !init[i].0.contains('&')
            && init[i].1.len() > 0 && !init[i].1.contains('&') by {
            assert(init[i] == fields[i]);
        }
        lemma_decoded_shapes(init);
        assert(fields[fields.len() - 1] == fields.last());
        lemma_decoded_nonempty(fields.last().1);
        let d = decoded_fields(fields).unwrap();
        let di = decoded_fields(init).unwrap();
        assert forall|i: int| 0 <= i < d.len() implies (#[trigger] d[i]).0 == fields[i].0 && d[i].1.len() > 0 by {
            if i < d.len() - 1 {
                assert(d[i] == di[i]);
                assert(init[i] == fields[i]);
            }
        }
    }
}

/// The map of pairs holds only names and values that occur in the pairs.
proof fn lemma_map_of_pairs_from(pairs: Seq<(Seq<char>, Seq<char>)>, k: Seq<char>)
    requires
        map_of_pairs(pairs).contains_key(k),
    ensures
        exists|i: int| 0 <= i < pairs.len() && (#[trigger] pairs[i]).0 == k && pairs[i].1 == map_of_pairs(pairs)[k],
    decreases pairs.len(),
{
    if pairs.last().0 == k {
        assert(pairs[pairs.len() - 1] == pairs.last());
    } else {
        let init = pairs.drop_last();
        lemma_map_of_pairs_from(init, k);
        let i = choose|i: int| 0 <= i < init.len() && (#[trigger] init[i]).0 == k && init[i].1 == map_of_pairs(init)[k];
        assert(pairs[i] == init[i]);
    }
}

/// Every name of a parsed query has at least one character and holds no `&`,
/// and every value has at least one character.
proof fn lemma_query_shapes(fields: Seq<(Seq<char>, Seq<char>)>)
    requires
        field_shapes(fields),
    ensures
        query_of_fields(fields) matches Some(m) ==> map_shapes(m),
{
    if decoded_fields(fields) is Some {
        lemma_decoded_shapes(fields);
        let d = decoded_fields(fields).unwrap();
        let m = map_of_pairs(d);
        assert forall|k: Seq<char>| #[trigger] m.contains_key(k) implies k.len() > 0 && !k.contains('&') && m[k].len() > 0 by {
            lemma_map_of_pairs_from(d, k);
            let i = choose|i: int| 0 <= i < d.len() && (#[trigger] d[i]).0 == k && d[i].1 == m[k];
            assert(fields[i].0 == k);
        }
    }
}

/// Without a `/?` in it, the whole URL is its query part, so that
/// `parse_query(Some(url))` and `url.query()` agree.
pub proof fn law_query_part_without_mark(url: Seq<char>)
    requires
        forall|j: int| 0 <= j < url.len() ==> !#[trigger] mark_at(url, j),
    ensures
        after_last_query_mark(url) == url,
    decreases url.len(),
{
    if url.len() >= 2 {
        assert(!mark_at(url, url.len() - 2));
        let init = url.drop_last();
        assert forall|j: int| 0 <= j < init.len() implies !#[trigger] mark_at(init, j) by {
            assert(!mark_at(url, j));
            if j + 1 < init.len() {
                assert(init[j + 1] == url[j + 1]);
            }
        }
        law_query_part_without_mark(init);
        assert(init.push(url.last()) == url);
    }
}

/// The fields of a query string after their values are percent-decoded, in
/// order; `None` where some value does not decode.
pub open spec fn decoded_fields(fields: Seq<(Seq<char>, Seq<char>)>) -> Option<Seq<(Seq<char>, Seq<char>)>>
    decreases fields.len(),
{
    if fields.len() == 0 {
        Some(seq![])
    } else {
        match (decoded_fields(fields.drop_last()), url_decoded(fields.last().1)) {
            (Some(init), Some(v)) => Some(init.push((fields.last().0, v))),
            _ => None,
        }
    }
}

/// The map that a list of captured fields gives: each value decoded, the
/// last field of a name winning; `None` where some value does not decode.
pub open spec fn query_of_fields(fields: Seq<(Seq<char>, Seq<char>)>) -> Option<Map<Seq<char>, Seq<char>>> {
    match decoded_fields(fields) {
        Some(d) => Some(map_of_pairs(d)),
        None => None,
    }
}

/// The map that a query text gives: the query field pattern's matches in it,
/// decoded; `None` where the pattern does not compile or a value does not decode.
pub open spec fn parsed_query(text: Seq<char>) -> Option<Map<Seq<char>, Seq<char>>> {
    if regex_compiles(query_field_pattern()) {
        query_of_fields(query_fields(text))
    } else {
        None
    }
}

/// The view of an optional query map.
pub open spec fn query_view(q: Option<QueryMap>) -> Option<Map<Seq<char>, Seq<char>>> {
    match q {
        Some(m) => Some(m@),
        None => None,
    }
}

/// Builds the query map from the captured fields of a query string: each
/// value is percent-decoded and stored under its name, a later field
/// replacing an earlier one of the same name. `None` as soon as a value does
/// not decode to UTF-8.
pub fn query_map_from_fields(fields: &Vec<(String, String)>) -> (r: Option<QueryMap>)
    ensures
        query_view(r) == query_of_fields(pair_views(fields@)),
{
    let mut map = QueryMap::new();
    let n = fields.len();
    let ghost fv = pair_views(fields@);
    for i in 0..n
        invariant
            n == fields@.len(),
            fv == pair_views(fields@),
            decoded_fields(fv.take(i as int)) matches Some(d) && map@ == map_of_pairs(d),
    {
        assert(fv.take(i + 1).drop_last() == fv.take(i as int));
        assert(fv.take(i + 1).last() == fv[i as int]);
        assert(fv[i as int] == (fields@[i as int].0@, fields@[i as int].1@));
        match url_decode(fields[i].1.as_str()) {
            Some(value) => {
                let ghost d0 = decoded_fields(fv.take(i as int)).unwrap();
                let ghost d1 = d0.push((fv[i as int].0, value@));
                assert(decoded_fields(fv.take(i + 1)) == Some(d1));
                assert(d1.drop_last() == d0);
                map.insert(fields[i].0.clone(), value);
                assert(map@ == map_of_pairs(d1));
            },
            None => {
                assert(decoded_fields(fv.take(i + 1)) is None);
                proof {
                    lemma_decoded_fields_none_extends(fv, i + 1);
                }
                assert(fv.take(n as int) == fv);
                return None;
            },
        }
    }
    assert(fv.take(n as int) == fv);
    Some(map)
}

/// Once a prefix of the fields fails to decode, so does every longer prefix.
proof fn lemma_decoded_fields_none_extends(fields: Seq<(Seq<char>, Seq<char>)>, k: int)
    requires
        0 <= k <= fields.len(),
        decoded_fields(fields.take(k)) is None,
    ensures
        decoded_fields(fields) is None,
    decreases fields.len() - k,
{
    if k < fields.len() {
        assert(fields.take(k + 1).drop_last() == fields.take(k));
        lemma_decoded_fields_none_extends(fields, k + 1);
    } else {
        assert(fields.take(k) == fields);
    }
}

/// Parses the query part of a URL into its fields: each match of
/// `([^&]+)=([^&]+)&?` gives a name and a percent-encoded value. `None` where
/// there is no query text, where a value does not decode to UTF-8, or where the
/// pattern does not compile.
pub fn parse_query(query: Option<&str>) -> (r: Option<QueryMap>)
    ensures
        query is None ==> r is None,
        query matches Some(q) ==> query_view(r) == parsed_query(q@),
        r matches Some(m) ==> map_shapes(m@),
        match (query, r) {
            (Some(q), Some(m)) => (forall|k: Seq<char>| #[trigger] m@.contains_key(k) ==> has_text(q@, k))
                && m@.dom().len() <= char_count(q@, '='),
            _ => true,
        },
{
    let pattern = match compile_pattern("([^&]+)=([^&]+)&?") {
        Some(p) => p,
        None => return None,
    };
    let q = match query {
        Some(q) => q,
        None => return None,
    };
    let fields = capture_pairs(&pattern, q);
    proof {
        lemma_query_fields_shapes(q@);
        lemma_query_shapes(pair_views(fields@));
        lemma_query_names(q@);
    }
    query_map_from_fields(&fields)
}

/// The text after the last `/?` of a URL, the whole URL where it holds none.
pub open spec fn after_last_query_mark(url: Seq<char>) -> Seq<char>
    decreases url.len(),
{
    if url.len() < 2 {
        url
    } else if url[url.len() - 2] == '/' && url[url.len() - 1] == '?' {
        seq![]
    } else {
        after_last_query_mark(url.drop_last()).push(url.last())
    }
}

/// The text before the first `/?` of a URL, the whole URL where it holds none.
pub open spec fn before_first_query_mark(url: Seq<char>) -> Seq<char>
    decreases url.len(),
{
    if url.len() < 2 {
        url
    } else if url[0] == '/' && url[1] == '?' {
        seq![]
    } else {
        seq![url[0]] + before_first_query_mark(url.drop_first())
    }
}

/// The pieces of a text between the separators, as `str::split` gives them:
/// one more piece than there are separators, empty pieces kept.
pub open spec fn split_on(text: Seq<char>, sep: char) -> Seq<Seq<char>>
    decreases text.len(),
{
    if text.len() == 0 {
        seq![seq![]]
    } else {
        let init = split_on(text.drop_last(), sep);
        if text.last() == sep {
            init.push(seq![])
        } else {
            init.update(init.len() - 1, init.last().push(text.last()))
        }
    }
}

/// The index at which the text after the last `/?` starts.
fn query_start(chars: &Vec<char>) -> (start: usize)
    ensures
        start <= chars@.len(),
        chars@.subrange(start as int, chars@.len() as int) == after_last_query_mark(chars@),
{
    let n = chars.len();
    let mut start: usize = 0;
    let mut i: usize = 0;
    while i < n
        invariant
            n == chars@.len(),
            i <= n,
            start <= i,
            chars@.subrange(start as int, i as int) == after_last_query_mark(chars@.take(i as int)),
        decreases n - i,
    {
        let ghost t = chars@.take(i + 1);
        assert(t.drop_last() == chars@.take(i as int));
        if i >= 1 && chars[i - 1] == '/' && chars[i] == '?' {
            start = i + 1;
            assert(chars@.subrange(start as int, i + 1) == Seq::<char>::empty());
        } else {
            assert(chars@.subrange(start as int, i + 1) == chars@.subrange(start as int, i as int).push(chars@[i as int]));
        }
        i = i + 1;
    }
    assert(chars@.take(n as int) == chars@);
    start
}

/// The end of the text before the first `/?`.
fn path_end(chars: &Vec<char>) -> (end: usize)
    ensures
        end <= chars@.len(),
        chars@.take(end as int) == before_first_query_mark(chars@),
{
    let n = chars.len();
    let mut i: usize = 0;
    while i < n
        invariant
            n == chars@.len(),
            i <= n,
            forall|j: int| 0 <= j < i ==> !#[trigger] mark_at(chars@, j),
        decreases n - i,
    {
        if chars[i] == '/' && i + 1 < n && chars[i + 1] == '?' {
            proof {
                lemma_before_first_mark(chars@, i as int);
            }
            return i;
        }
        i = i + 1;
    }
    proof {
        lemma_before_first_mark(chars@, n as int);
    }
    n
}

/// A `/?` starts at index `j`.
pub open spec fn mark_at(s: Seq<char>, j: int) -> bool {
    s[j] == '/' && j + 1 < s.len() && s[j + 1] == '?'
}

proof fn lemma_before_first_mark(s: Seq<char>, k: int)
    requires
        0 <= k <= s.len(),
        forall|j: int| 0 <= j < k ==> !#[trigger] mark_at(s, j),
        k < s.len() ==> mark_at(s, k),
    ensures
        s.take(k) == before_first_query_mark(s),
    decreases s.len(),
{
    if s.len() < 2 {
        if k == 1 {
            assert(s.take(1) == s);
        } else if k == 0 {
            assert(s.len() == 0);
        }
    } else if k == 0 {
        assert(mark_at(s, 0));
    } else {
        assert(!mark_at(s, 0));
        let t = s.drop_first();
        assert forall|j: int| 0 <= j < k - 1 implies !#[trigger] mark_at(t, j) by {
            assert(!mark_at(s, j + 1));
            assert(t[j] == s[j + 1]);
            assert(j + 2 < s.len() ==> t[j + 1] == s[j + 2]);
        }
        lemma_before_first_mark(t, k - 1);
        assert(s.take(k) == seq![s[0]] + t.take(k - 1));
    }
}

/// Splits characters at each `/`.
fn split_slashes(chars: &[char]) -> (pieces: Vec<String>)
    ensures
        pieces@.map_values(|p: String| p@) == split_on(chars@, '/'),
{
    let n = chars.len();
    let mut pieces: Vec<String> = Vec::new();
    let mut current: Vec<char> = Vec::new();
    let ghost done: Seq<Seq<char>> = seq![];
    assert(chars@.take(0) == Seq::<char>::empty());
    for i in 0..n
        invariant
            n == chars@.len(),
            pieces@.map_values(|p: String| p@) == done,
            split_on(chars@.take(i as int), '/') == done.push(current@),
    {
        assert(chars@.take(i + 1).drop_last() == chars@.take(i as int));
        assert(chars@.take(i + 1).last() == chars@[i as int]);
        if chars[i] == '/' {
            let piece = string_of(current.as_slice());
            proof {
                done = done.push(current@);
            }
            pieces.push(piece);
            assert(pieces@.map_values(|p: String| p@) == done);
            current = Vec::new();
        } else {
            current.push(chars[i]);
        }
    }
    assert(chars@.take(n as int) == chars@);
    let last = string_of(current.as_slice());
    pieces.push(last);
    assert(pieces@.map_values(|p: String| p@) == done.push(current@));
    pieces
}

/// Access to the query fields of a URL.
pub trait Query {
    /// The fields of the query part, the text after the last `/?`.
    fn query(&self) -> Option<QueryMap>;
}

impl Query for &str {
    fn query(&self) -> (r: Option<QueryMap>)
        ensures
            query_view(r) == parsed_query(after_last_query_mark((*self)@)),
    {
        let chars = chars_of(*self);
        let start = query_start(&chars);
        let n = chars.len();
        let tail = string_of(&chars.as_slice()[start..n]);
        parse_query(Some(tail.as_str()))
    }
}

/// Access to the path segments of a URL. The path is read as the text before
/// the first `/?` (the mark after which `Query` reads the fields), split at
/// each `/`; this reading is the library's own, and it always finds a path.
pub trait Path {
    /// The pieces between `/` of the text before the first `/?`.
    fn path(&self) -> Option<Vec<String>>;
}

/// The path segments of a URL.
pub open spec fn path_segments(url: Seq<char>) -> Seq<Seq<char>> {
    split_on(before_first_query_mark(url), '/')
}

impl Path for &str {
    fn path(&self) -> (r: Option<Vec<String>>)
        ensures
            r matches Some(v) && v@.map_values(|p: String| p@) == path_segments((*self)@),
    {
        let chars = chars_of(*self);
        let end = path_end(&chars);
        Some(split_slashes(&chars.as_slice()[0..end]))
    }
}

/// Where no value holds `%`, every captured field comes through as it is:
/// the query is the map of the captured pairs, the last of a name winning.
pub proof fn law_query_without_percent(fields: Seq<(Seq<char>, Seq<char>)>)
    requires
        forall|i: int| 0 <= i < fields.len() ==> !(#[trigger] fields[i]).1.contains('%'),
    ensures
        decoded_fields(fields) == Some(fields),
        query_of_fields(fields) == Some(map_of_pairs(fields)),
    decreases fields.len(),
{
    if fields.len() > 0 {
        let init = fields.drop_last();
        assert forall|i: int| 0 <= i < init.len() implies !(#[trigger] init[i]).1.contains('%') by {
            assert(init[i] == fields[i]);
        }
        law_query_without_percent(init);
        assert(!fields[fields.len() - 1].1.contains('%'));
        law_decode_without_percent(fields.last().1);
        assert(init.push(fields.last()) == fields);
    }
}

/// No piece of a split holds the separator.
pub proof fn lemma_split_pieces_without_sep(text: Seq<char>, sep: char)
    ensures
        forall|i: int| 0 <= i < split_on(text, sep).len() ==> !(#[trigger] split_on(text, sep)[i]).contains(sep),
        split_on(text, sep).len() >= 1,
    decreases text.len(),
{
    if text.len() > 0 {
        let init = split_on(text.drop_last(), sep);
        lemma_split_pieces_without_sep(text.drop_last(), sep);
        let pieces = split_on(text, sep);
        if text.last() != sep {
            let grown = init.last().push(text.last());
            assert(!grown.contains(sep)) by {
                if grown.contains(sep) {
                    let k = choose|k: int| 0 <= k < grown.len() && grown[k] == sep;
                    assert(init[init.len() - 1] == init.last());
                    assert(init.last()[k] == sep);
                }
            }
            assert forall|i: int| 0 <= i < pieces.len() implies !(#[trigger] pieces[i]).contains(sep) by {
                if i < init.len() - 1 {
                    assert(pieces[i] == init[i]);
                }
            }
        } else {
            assert forall|i: int| 0 <= i < pieces.len() implies !(#[trigger] pieces[i]).contains(sep) by {
                if i < init.len() {
                    assert(pieces[i] == init[i]);
                } else {
                    assert(pieces[i] == Seq::<char>::empty());
                }
            }
        }
    }
}

proof fn lemma_last_eq(piece: Seq<char>, k: int)
    ensures
        last_eq_at_or_before(piece, k) matches Some(j) ==> 1 <= j <= k && piece[j] == '=',
    decreases k,
{
    if k >= 1 && piece[k] != '=' {
        lemma_last_eq(piece, k - 1);
    }
}

proof fn lemma_subrange_without(s: Seq<char>, a: int, b: int, c: char)
    requires
        0 <= a <= b <= s.len(),
        !s.contains(c),
    ensures
        !s.subrange(a, b).contains(c),
{
    if s.subrange(a, b).contains(c) {
        let k = choose|k: int| 0 <= k < s.subrange(a, b).len() && s.subrange(a, b)[k] == c;
        assert(s[a + k] == c);
    }
}

/// Fields of pieces without `&` have non-empty names and values without `&`.
proof fn lemma_fields_of_pieces_shapes(pieces: Seq<Seq<char>>)
    requires
        forall|i: int| 0 <= i < pieces.len() ==> !(#[trigger] pieces[i]).contains('&'),
    ensures
        field_shapes(fields_of_pieces(pieces)),
    decreases pieces.len(),
{
    if pieces.len() > 0 {
        let init = pieces.drop_last();
        assert forall|i: int| 0 <= i < init.len() implies !(#[trigger] init[i]).contains('&') by {
            assert(init[i] == pieces[i]);
        }
        lemma_fields_of_pieces_shapes(init);
        let p = pieces.last();
        assert(pieces[pieces.len() - 1] == p);
        lemma_last_eq(p, p.len() - 2);
        if let Some(j) = last_eq_at_or_before(p, p.len() - 2) {
            lemma_subrange_without(p, 0, j, '&');
            lemma_subrange_without(p, j + 1, p.len() as int, '&');
            let fs = fields_of_pieces(pieces);
            let fi = fields_of_pieces(init);
            assert forall|i: int| 0 <= i < fs.len() implies (#[trigger] fs[i]).0.len() > 0 && !fs[i].0.contains('&')
                && fs[i].1.len() > 0 && !fs[i].1.contains('&') by {
                if i < fi.len() {
                    assert(fs[i] == fi[i]);
                }
            }
        }
    }
}

/// Every field the pattern captures has a non-empty name and value, neither
/// holding `&`.
pub proof fn lemma_query_fields_shapes(text: Seq<char>)
    ensures
        field_shapes(query_fields(text)),
{
    lemma_split_pieces_without_sep(text, '&');
    lemma_fields_of_pieces_shapes(split_on(text, '&'));
}

/// Appending text without the separator extends the last piece.
pub proof fn lemma_split_append_plain(a: Seq<char>, b: Seq<char>, sep: char)
    requires
        !b.contains(sep),
    ensures
        split_on(a + b, sep) == split_on(a, sep).update(
            split_on(a, sep).len() - 1,
            split_on(a, sep).last() + b,
        ),
    decreases b.len(),
{
    lemma_split_pieces_without_sep(a, sep);
    if b.len() == 0 {
        assert(a + b == a);
        assert(split_on(a, sep).last() + b == split_on(a, sep).last());
        assert(split_on(a, sep).update(split_on(a, sep).len() - 1, split_on(a, sep).last()) == split_on(a, sep));
    } else {
        let b0 = b.drop_last();
        assert(!b0.contains(sep)) by {
            if b0.contains(sep) {
                let k = choose|k: int| 0 <= k < b0.len() && b0[k] == sep;
                assert(b[k] == sep);
            }
        }
        lemma_split_append_plain(a, b0, sep);
        assert((a + b).drop_last() == a + b0);
        assert((a + b).last() == b.last());
        assert(b[b.len() - 1] != sep);
        lemma_split_pieces_without_sep(a + b0, sep);
        let s0 = split_on(a, sep);
        let l = s0.len() - 1;
        let init = split_on(a + b0, sep);
        assert(init == s0.update(l, s0.last() + b0));
        assert(init.len() == s0.len());
        assert(init.last() == s0.last() + b0);
        assert((s0.last() + b0).push(b.last()) == s0.last() + b);
        assert(split_on(a + b, sep) == init.update(init.len() - 1, init.last().push((a + b).last())));
        assert(init.update(l, (s0.last() + b0).push(b.last())) == s0.update(l, s0.last() + b));
    }
}

/// The last `=` up to `k` is found at `j` when nothing after `j` up to `k` is a `=`.
pub proof fn lemma_last_eq_found(piece: Seq<char>, j: int, k: int)
    requires
        1 <= j <= k < piece.len(),
        piece[j] == '=',
        forall|i: int| j < i <= k ==> piece[i] != '=',
    ensures
        last_eq_at_or_before(piece, k) == Some(j),
    decreases k,
{
    if k > j {
        lemma_last_eq_found(piece, j, k - 1);
    }
}

/// How many times `c` occurs in the text.
pub open spec fn char_count(text: Seq<char>, c: char) -> nat
    decreases text.len(),
{
    if text.len() == 0 {
        0
    } else {
        char_count(text.drop_last(), c) + if text.last() == c {
            1nat
        } else {
            0nat
        }
    }
}

/// How many times `c` occurs in the pieces together.
pub open spec fn pieces_char_count(pieces: Seq<Seq<char>>, c: char) -> nat
    decreases pieces.len(),
{
    if pieces.len() == 0 {
        0
    } else {
        pieces_char_count(pieces.drop_last(), c) + char_count(pieces.last(), c)
    }
}

/// Splitting keeps every character other than the separator.
proof fn lemma_split_keeps_count(text: Seq<char>, sep: char, c: char)
    requires
        c != sep,
    ensures
        pieces_char_count(split_on(text, sep), c) == char_count(text, c),
    decreases text.len(),
{
    if text.len() > 0 {
        let t0 = text.drop_last();
        lemma_split_keeps_count(t0, sep, c);
        lemma_split_pieces_without_sep(t0, sep);
        let init = split_on(t0, sep);
        assert(text.drop_last() == t0);
        if text.last() == sep {
            let pieces = init.push(seq![]);
            assert(split_on(text, sep) == pieces);
            assert(pieces.drop_last() == init);
            assert(pieces.last() == Seq::<char>::empty());
            assert(char_count(Seq::<char>::empty(), c) == 0);
            assert(char_count(text, c) == char_count(t0, c));
        } else {
            let l = init.len() - 1;
            let lp = init.last().push(text.last());
            let grown = init.update(l, lp);
            assert(split_on(text, sep) == grown);
            assert(grown.drop_last() == init.drop_last());
            assert(grown.last() == lp);
            assert(lp.drop_last() == init.last());
            assert(lp.last() == text.last());
            assert(init[l] == init.last());
            assert(char_count(lp, c) == char_count(init.last(), c) + if text.last() == c { 1nat } else { 0nat });
            assert(pieces_char_count(grown, c) == pieces_char_count(init.drop_last(), c) + char_count(lp, c));
            assert(pieces_char_count(init, c) == pieces_char_count(init.drop_last(), c) + char_count(init.last(), c));
        }
    } else {
        let pieces = split_on(text, sep);
        assert(pieces == seq![Seq::<char>::empty()]);
        assert(pieces.drop_last() == Seq::<Seq<char>>::empty());
        assert(pieces_char_count(Seq::<Seq<char>>::empty(), c) == 0);
        assert(char_count(Seq::<char>::empty(), c) == 0);
    }
}

/// A piece with a field holds a `=`.
proof fn lemma_piece_field_count(piece: Seq<char>)
    ensures
        piece_field(piece) is Some ==> char_count(piece, '=') >= 1,
{
    lemma_last_eq(piece, piece.len() - 2);
    if let Some(j) = last_eq_at_or_before(piece, piece.len() - 2) {
        lemma_count_at(piece, j);
    }
}

proof fn lemma_count_at(text: Seq<char>, j: int)
    requires
        0 <= j < text.len(),
        text[j] == '=',
    ensures
        char_count(text, '=') >= 1,
    decreases text.len(),
{
    if j < text.len() - 1 {
        assert(text.drop_last()[j] == '=');
        lemma_count_at(text.drop_last(), j);
    }
}

/// There are no more fields than `=`s in the pieces.
proof fn lemma_fields_count(pieces: Seq<Seq<char>>)
    ensures
        fields_of_pieces(pieces).len() <= pieces_char_count(pieces, '='),
    decreases pieces.len(),
{
    if pieces.len() > 0 {
        lemma_fields_count(pieces.drop_last());
        lemma_piece_field_count(pieces.last());
    }
}

/// The map of pairs has no more keys than there are pairs.
proof fn lemma_map_of_pairs_size(pairs: Seq<(Seq<char>, Seq<char>)>)
    ensures
        map_of_pairs(pairs).dom().finite(),
        map_of_pairs(pairs).dom().len() <= pairs.len(),
    decreases pairs.len(),
{
    if pairs.len() > 0 {
        lemma_map_of_pairs_size(pairs.drop_last());
    }
}

/// Every piece of a split occurs in the text, and the last one ends it.
proof fn lemma_split_pieces_occur(text: Seq<char>, sep: char)
    ensures
        forall|i: int| 0 <= i < split_on(text, sep).len() ==> has_text(text, #[trigger] split_on(text, sep)[i]),
        split_on(text, sep).last().len() <= text.len(),
        text.subrange(text.len() - split_on(text, sep).last().len(), text.len() as int) == split_on(text, sep).last(),
    decreases text.len(),
{
    lemma_split_pieces_without_sep(text, sep);
    if text.len() == 0 {
        assert(split_on(text, sep)[0] == Seq::<char>::empty());
        assert(text.subrange(0, 0) =~= Seq::<char>::empty());
        assert(occurs_at(text, Seq::<char>::empty(), 0));
    } else {
        let t0 = text.drop_last();
        lemma_split_pieces_occur(t0, sep);
        lemma_split_pieces_without_sep(t0, sep);
        let init = split_on(t0, sep);
        let pieces = split_on(text, sep);
        assert forall|i: int| 0 <= i < init.len() implies has_text(text, #[trigger] init[i]) by {
            assert(has_text(t0, init[i]));
            let st = choose|st: int| occurs_at(t0, init[i], st);
            assert(text.subrange(st, st + init[i].len()) == t0.subrange(st, st + init[i].len()));
            assert(occurs_at(text, init[i], st));
        }
        if text.last() == sep {
            assert(pieces == init.push(seq![]));
            assert forall|i: int| 0 <= i < pieces.len() implies has_text(text, #[trigger] pieces[i]) by {
                if i < init.len() {
                    assert(pieces[i] == init[i]);
                } else {
                    assert(text.subrange(0, 0) == pieces[i]);
                    assert(occurs_at(text, pieces[i], 0));
                }
            }
            assert(text.subrange(text.len() as int, text.len() as int) == Seq::<char>::empty());
        } else {
            let l = init.len() - 1;
            let last = init.last();
            assert(init[l] == last);
            let st = text.len() - last.len() - 1;
            assert(text.subrange(st, text.len() as int) == last.push(text.last())) by {
                assert(t0.subrange(t0.len() - last.len(), t0.len() as int) == last);
                assert forall|k: int| 0 <= k < last.len() + 1 implies text.subrange(st, text.len() as int)[k]
                    == last.push(text.last())[k] by {
                    if k < last.len() {
                        assert(t0.subrange(t0.len() - last.len(), t0.len() as int)[k] == last[k]);
                    }
                }
            }
            assert forall|i: int| 0 <= i < pieces.len() implies has_text(text, #[trigger] pieces[i]) by {
                if i < l {
                    assert(pieces[i] == init[i]);
                } else {
                    assert(pieces[i] == last.push(text.last()));
                    assert(occurs_at(text, pieces[i], st));
                }
            }
        }
    }
}

/// Every field's name occurs in the text.
proof fn lemma_field_names_occur(text: Seq<char>)
    ensures
        forall|i: int| 0 <= i < query_fields(text).len() ==> has_text(text, (#[trigger] query_fields(text)[i]).0),
{
    lemma_split_pieces_occur(text, '&');
    lemma_names_occur_in_pieces(text, split_on(text, '&'));
}

proof fn lemma_names_occur_in_pieces(text: Seq<char>, pieces: Seq<Seq<char>>)
    requires
        forall|i: int| 0 <= i < pieces.len() ==> has_text(text, #[trigger] pieces[i]),
    ensures
        forall|i: int| 0 <= i < fields_of_pieces(pieces).len() ==> has_text(text, (#[trigger] fields_of_pieces(pieces)[i]).0),
    decreases pieces.len(),
{
    if pieces.len() > 0 {
        let init = pieces.drop_last();
        assert forall|i: int| 0 <= i < init.len() implies has_text(text, #[trigger] init[i]) by {
            assert(init[i] == pieces[i]);
        }
        lemma_names_occur_in_pieces(text, init);
        let p = pieces.last();
        assert(pieces[pieces.len() - 1] == p);
        lemma_last_eq(p, p.len() - 2);
        let fs = fields_of_pieces(pieces);
        let fi = fields_of_pieces(init);
        if let Some(j) = last_eq_at_or_before(p, p.len() - 2) {
            assert(has_text(text, p));
            let st = choose|st: int| occurs_at(text, p, st);
            assert(text.subrange(st, st + j) == p.subrange(0, j));
            assert(occurs_at(text, p.subrange(0, j), st));
            assert forall|i: int| 0 <= i < fs.len() implies has_text(text, (#[trigger] fs[i]).0) by {
                if i < fi.len() {
                    assert(fs[i] == fi[i]);
                }
            }
        } else {
            assert(fs == fi);
        }
    }
}

/// What a parsed query holds: names that occur in the text, no more of them
/// than the text has `=`s.
proof fn lemma_query_names(text: Seq<char>)
    ensures
        query_of_fields(query_fields(text)) matches Some(m) ==> (forall|k: Seq<char>|
            #[trigger] m.contains_key(k) ==> has_text(text, k)) && m.dom().len() <= char_count(text, '='),
{
    let fields = query_fields(text);
    lemma_query_fields_shapes(text);
    lemma_field_names_occur(text);
    lemma_fields_count(split_on(text, '&'));
    lemma_split_keeps_count(text, '&', '=');
    if decoded_fields(fields) is Some {
        lemma_decoded_shapes(fields);
        let d = decoded_fields(fields).unwrap();
        lemma_map_of_pairs_size(d);
        let m = map_of_pairs(d);
        assert forall|k: Seq<char>| #[trigger] m.contains_key(k) implies has_text(text, k) by {
            lemma_map_of_pairs_from(d, k);
            let i = choose|i: int| 0 <= i < d.len() && (#[trigger] d[i]).0 == k && d[i].1 == m[k];
            assert(fields[i].0 == k);
        }
    }
}

} // verus!
