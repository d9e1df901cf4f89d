use vstd::prelude::*;
use crate::query::{Path, Query, QueryMap, after_last_query_mark, parsed_query, path_segments};
use crate::text::same_text;

verus! {

broadcast use vstd::string::group_string_axioms;

/// One site of the webring.
pub struct WebringEntry {
    pub name: String,
    pub url: String,
}

/// The sites of the webring, in ring order.
pub struct Webring(pub Vec<WebringEntry>);

/// A valid webring request: how far to move along the ring, from which site.
pub struct WebringQuery {
    pub step: i32,
    pub source: String,
}

/// `rand::random::<i32>()`: a random number. Nothing is claimed of it. It
/// panics where the operating system's random source fails, a failure of the
/// machine that no `requires` can rule out.
#[verifier::external_body]
fn random_step() -> i32 {
    rand::random::<i32>()
}

/// How far a direction moves along the ring, given the number `drawn` from
/// the random source: `next` one forward, `previous` one back, `random` the
/// drawn distance; any other word is no direction.
pub fn step_for_direction(direction: &str, drawn: i32) -> (r: Option<i32>)
    ensures
        direction@ == "next"@ ==> r == Some(1i32),
        direction@ == "previous"@ ==> r == Some(-1i32),
        direction@ == "random"@ ==> r == Some(drawn),
        r is Some <==> (direction@ == "next"@ || direction@ == "previous"@ || direction@ == "random"@),
{
    proof {
        reveal_strlit("next");
        reveal_strlit("previous");
        reveal_strlit("random");
        assert("next"@.len() == 4);
        assert("previous"@.len() == 8);
        assert("random"@.len() == 6);
        assert("next"@ != "previous"@);
        assert("next"@ != "random"@);
        assert("previous"@ != "random"@);
    }
    if same_text(direction, "next") {
        Some(1)
    } else if same_text(direction, "previous") {
        Some(-1)
    } else if same_text(direction, "random") {
        Some(drawn)
    } else {
        None
    }
}

/// How far a direction moves along the ring: `next` one forward, `previous`
/// one back, `random` a distance drawn from the random source (only then is
/// a number drawn); any other word is no direction.
pub fn direction_step(direction: &str) -> (r: Option<i32>)
    ensures
        direction@ == "next"@ ==> r == Some(1i32),
        direction@ == "previous"@ ==> r == Some(-1i32),
        direction@ == "random"@ ==> r is Some,
        r is Some <==> (direction@ == "next"@ || direction@ == "previous"@ || direction@ == "random"@),
{
    if same_text(direction, "random") {
        step_for_direction(direction, random_step())
    } else {
        step_for_direction(direction, 0)
    }
}

/// Whether a word names a direction.
pub open spec fn is_direction(d: Seq<char>) -> bool {
    d == "next"@ || d == "previous"@ || d == "random"@
}

/// The status with which a webring request for `url` is refused before the
/// webring is read, or `None` where it is not refused: 500 without a direction
/// segment, 400 for an unknown direction, a query that does not parse, or no
/// `source` field.
pub open spec fn webring_refusal(url: Seq<char>) -> Option<u16> {
    let segments = path_segments(url);
    if segments.len() <= 2 {
        Some(500)
    } else if !is_direction(segments[2]) {
        Some(400)
    } else {
        match parsed_query(after_last_query_mark(url)) {
            None => Some(400),
            Some(m) => if m.contains_key("source"@) {
                None
            } else {
                Some(400)
            },
        }
    }
}

/// Reads a webring request from its URL, `/webring/<direction>/?source=<name>`:
/// the step along the ring and the site it starts from, or the status with
/// which the request is refused.
pub fn webring_request(url: &str) -> (r: Result<WebringQuery, u16>)
    ensures
        r matches Err(status) ==> webring_refusal(url@) == Some(status),
        r is Ok <==> webring_refusal(url@) is None,
        r matches Ok(q) ==> ({
            let d = path_segments(url@)[2];
            &&& parsed_query(after_last_query_mark(url@)) matches Some(m)
            &&& q.source@ == m["source"@]
            &&& (d == "next"@ ==> q.step == 1)
            &&& (d == "previous"@ ==> q.step == -1)
        }),
{
    let path = match url.path() {
        Some(p) => p,
        None => return Err(400),
    };
    if path.len() <= 2 {
        return Err(500);
    }
    assert(path@[2]@ == path_segments(url@)[2]);
    let step = match direction_step(path[2].as_str()) {
        Some(s) => s,
        None => return Err(400),
    };
    let query: QueryMap = match url.query() {
        Some(q) => q,
        None => return Err(400),
    };
    let source = match query.get("source") {
        Some(s) => s.clone(),
        None => return Err(400),
    };
    Ok(WebringQuery { step, source })
}

/// The index of the first site named `source`.
pub open spec fn first_named(entries: Seq<WebringEntry>, source: Seq<char>) -> Option<int>
    decreases entries.len(),
{
    if entries.len() == 0 {
        None
    } else if first_named(entries.drop_last(), source) is Some {
        first_named(entries.drop_last(), source)
    } else if entries.last().name@ == source {
        Some(entries.len() - 1)
    } else {
        None
    }
}

proof fn lemma_first_named(entries: Seq<WebringEntry>, source: Seq<char>)
    ensures
        first_named(entries, source) matches Some(i) ==> 0 <= i < entries.len() && entries[i].name@ == source
            && forall|j: int| 0 <= j < i ==> #[trigger] entries[j].name@ != source,
        first_named(entries, source) is None ==> forall|j: int| 0 <= j < entries.len() ==> #[trigger] entries[j].name@ != source,
    decreases entries.len(),
{
    if entries.len() > 0 {
        let init = entries.drop_last();
        lemma_first_named(init, source);
        match first_named(init, source) {
            Some(i) => {
                assert forall|j: int| 0 <= j < i implies #[trigger] entries[j].name@ != source by {
                    assert(init[j] == entries[j]);
                    assert(init[j].name@ != source);
                }
                assert(init[i] == entries[i]);
            },
            None => {
                assert forall|j: int| 0 <= j < entries.len() - 1 implies #[trigger] entries[j].name@ != source by {
                    assert(init[j] == entries[j]);
                    assert(init[j].name@ != source);
                }
            },
        }
    }
}

/// The position of the first site named `source`.
pub fn position(webring: &Webring, source: &str) -> (r: Option<usize>)
    ensures
        r is None <==> first_named(webring.0@, source@) is None,
        r matches Some(i) ==> first_named(webring.0@, source@) == Some(i as int),
{
    proof {
        lemma_first_named(webring.0@, source@);
    }
    let n = webring.0.len();
    for i in 0..n
        invariant
            n == webring.0@.len(),
            forall|j: int| 0 <= j < i ==> #[trigger] webring.0@[j].name@ != source@,
    {
        if same_text(webring.0[i].name.as_str(), source) {
            proof {
                lemma_first_named(webring.0@, source@);
                let f = first_named(webring.0@, source@);
                if let Some(f) = f {
                    if f > i {
                        assert(webring.0@[i as int].name@ != source@);
                    }
                    if f < i {
                        assert(webring.0@[f].name@ != source@);
                    }
                } else {
                    assert(webring.0@[i as int].name@ != source@);
                }
            }
            return Some(i);
        }
    }
    None
}

/// `index + step` as a machine word: wrapped around the range of `usize`.
pub open spec fn wrapped_sum(index: int, step: int) -> int {
    if index + step > usize::MAX {
        index + step - (usize::MAX + 1)
    } else if index + step < 0 {
        index + step + (usize::MAX + 1)
    } else {
        index + step
    }
}

/// The index reached by moving `step` along a ring of `len` sites from
/// `index`: the machine-word sum taken modulo the length.
pub open spec fn ring_step(index: int, step: int, len: int) -> int {
    wrapped_sum(index, step) % len
}

/// Moves `step` places along a ring of `len` sites from `index`. The sum is a
/// machine-word sum, so a step back from the first site lands on
/// `usize::MAX % len`.
pub fn step_index(index: usize, step: i32, len: usize) -> (r: usize)
    requires
        len > 0,
    ensures
        r == ring_step(index as int, step as int, len as int),
        r < len,
{
    let sum = index.wrapping_add_signed(step as isize);
    sum % len
}

/// Where a webring request leads: the URL of the site `step` places along
/// the ring from the first site named `source`; 404 where no site has that name.
pub fn webring_target(webring: &Webring, source: &str, step: i32) -> (r: Result<String, u16>)
    ensures
        r matches Err(status) ==> status == 404 && first_named(webring.0@, source@) is None,
        r matches Ok(url) ==> first_named(webring.0@, source@) matches Some(i) && url@ == webring.0@[
            ring_step(i, step as int, webring.0@.len() as int)].url@,
        first_named(webring.0@, source@) is Some ==> r is Ok,
{
    proof {
        lemma_first_named(webring.0@, source@);
    }
    let source_idx = match position(webring, source) {
        Some(i) => i,
        None => return Err(404),
    };
    let new_idx = step_index(source_idx, step, webring.0.len());
    Ok(webring.0[new_idx].url.clone())
}

/// One step forward and then one step back returns to the site that was
/// left, from every site but the last.
pub proof fn law_next_then_previous(index: int, len: int)
    requires
        0 <= index,
        index + 1 < len,
        len <= usize::MAX,
    ensures
        ring_step(ring_step(index, 1, len), -1, len) == index,
{
    assert((index + 1) % len == index + 1) by (nonlinear_arith)
        requires
            0 <= index,
            index + 1 < len,
    ;
    assert(index % len == index) by (nonlinear_arith)
        requires
            0 <= index < len,
    ;
}

/// One step back and then one step forward returns to the site that was
/// left, from every site but the first.
pub proof fn law_previous_then_next(index: int, len: int)
    requires
        0 < index < len,
        len <= usize::MAX,
    ensures
        ring_step(ring_step(index, -1, len), 1, len) == index,
{
    assert((index - 1) % len == index - 1) by (nonlinear_arith)
        requires
            0 <= index - 1 < len,
    ;
    assert(index % len == index) by (nonlinear_arith)
        requires
            0 <= index < len,
    ;
}

/// A step forward from the last site leads to the first.
pub proof fn law_next_wraps_to_first(len: int)
    requires
        0 < len <= usize::MAX,
    ensures
        ring_step(len - 1, 1, len) == 0,
{
    assert(len % len == 0) by (nonlinear_arith)
        requires
            len > 0,
    ;
}

/// Some step leads from any site to any other: a random request can land on
/// every site of the ring, the source itself or another one.
pub proof fn law_every_site_reachable(source: int, target: int, len: int)
    requires
        0 <= source < len,
        0 <= target < len,
        len <= i32::MAX,
    ensures
        exists|step: i32| ring_step(source, step as int, len) == target,
{
    let step = (target - source) as i32;
    assert(step as int == target - source);
    assert(wrapped_sum(source, step as int) == target);
    assert(target % len == target) by (nonlinear_arith)
        requires
            0 <= target < len,
    ;
    assert(ring_step(source, step as int, len) == target);
}

} // verus!
