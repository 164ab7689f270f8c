//! The router: parses one inbound text frame of the form
//! `target1,target2,...:payload` into a target list and a payload, and
//! resolves each target against the registry to plan the fan-out.
//!
//! A frame without a colon is malformed and yields no message; the head is
//! split on commas into target tokens, each trimmed, empty tokens skipped;
//! the payload is the trimmed remainder after the first colon and may itself
//! contain colons.

use vstd::prelude::*;
use vstd::string::StrSliceExecFns;
use vstd::string::StringExecFns;

use crate::registry::Handle;
use crate::registry::Registry;
use crate::text::find_char_from;
use crate::text::is_space;
use crate::text::lemma_first_occurrence;
use crate::text::lemma_no_occurrence;
use crate::text::lemma_trim_clean;
use crate::text::trim_spec;
use crate::text::trim_str;

verus! {

/// The raw segments of `s` between commas, in order; a sequence without a
/// comma is one segment.
pub open spec fn split_commas(s: Seq<char>) -> Seq<Seq<char>>
    decreases s.len(),
    via split_commas_decreases
{
    match s.index_of_first(',') {
        Some(i) => seq![s.subrange(0, i)] + split_commas(s.subrange(i + 1, s.len() as int)),
        None => seq![s],
    }
}

#[via_fn]
proof fn split_commas_decreases(s: Seq<char>) {
    s.index_of_first_ensures(',');
}

/// Segments trimmed of surrounding whitespace, in order, with tokens that
/// are empty after trimming skipped.
pub open spec fn clean_tokens(segs: Seq<Seq<char>>) -> Seq<Seq<char>>
    decreases segs.len(),
{
    if segs.len() == 0 {
        Seq::empty()
    } else {
        let t = trim_spec(segs[0]);
        let rest = clean_tokens(segs.drop_first());
        if t.len() > 0 {
            seq![t] + rest
        } else {
            rest
        }
    }
}

/// The target tokens of a frame head.
pub open spec fn targets_spec(head: Seq<char>) -> Seq<Seq<char>> {
    clean_tokens(split_commas(head))
}

/// What parsing a raw frame yields: `None` for a frame without a colon,
/// otherwise the target tokens of the part before the first colon and the
/// trimmed payload after it.
pub open spec fn parse_spec(s: Seq<char>) -> Option<(Seq<Seq<char>>, Seq<char>)> {
    match s.index_of_first(':') {
        Some(i) => Some(
            (targets_spec(s.subrange(0, i)), trim_spec(s.subrange(i + 1, s.len() as int))),
        ),
        None => None,
    }
}

/// One parsed inbound frame: the listed target identifiers, in order, and
/// the payload to deliver to each.
pub struct RoutedMessage {
    pub targets: Vec<String>,
    pub payload: String,
}

impl RoutedMessage {
    /// The targets as sequences of characters.
    pub open spec fn targets_view(&self) -> Seq<Seq<char>> {
        Seq::new(self.targets@.len(), |i: int| self.targets@[i]@)
    }
}

/// Splits a frame head into its cleaned target tokens.
fn split_targets(head: &str) -> (ts: Vec<String>)
    ensures
        Seq::new(ts@.len(), |i: int| ts@[i]@) == targets_spec(head@),
{
    let n = head.unicode_len();
    let mut ts: Vec<String> = Vec::new();
    let mut start: usize = 0;
    proof {
        assert(head@.subrange(0, n as int) =~= head@);
        assert(Seq::new(ts@.len(), |i: int| ts@[i]@) + targets_spec(head@) =~= targets_spec(
            head@,
        ));
    }
    loop
        invariant
            start <= n,
            n == head@.len(),
            targets_spec(head@) == Seq::new(ts@.len(), |i: int| ts@[i]@) + targets_spec(
                head@.subrange(start as int, n as int),
            ),
        decreases n - start,
    {
        let ghost sofar = Seq::new(ts@.len(), |i: int| ts@[i]@);
        let ghost suffix = head@.subrange(start as int, n as int);
        match find_char_from(head, start, ',') {
            Some(j) => {
                let seg = head.substring_char(start, j);
                let t = trim_str(seg);
                proof {
                    assert(suffix[j - start] == ',');
                    assert(forall|k: int|
                        0 <= k < j - start ==> suffix[k] == head@[k + start] && suffix[k] != ',');
                    lemma_first_occurrence(suffix, ',', j - start);
                    assert(suffix.subrange(0, j - start) =~= seg@);
                    let after = head@.subrange(j + 1, n as int);
                    assert(suffix.subrange(j + 1 - start, suffix.len() as int) =~= after);
                    lemma_clean_tokens_cons(seg@, split_commas(after));
                    assert(targets_spec(suffix) == token_of(seg@) + targets_spec(after));
                }
                if !t.as_str().is_empty() {
                    proof {
                        lemma_push_view(ts@, t);
                        assert(token_of(seg@) =~= seq![t@]);
                    }
                    ts.push(t);
                } else {
                    proof {
                        assert(sofar + token_of(seg@) =~= sofar);
                    }
                }
                start = j + 1;
            },
            None => {
                let seg = head.substring_char(start, n);
                let t = trim_str(seg);
                proof {
                    assert(forall|k: int|
                        0 <= k < suffix.len() ==> suffix[k] == head@[k + start] && suffix[k]
                            != ',');
                    lemma_no_occurrence(suffix, ',');
                    assert(suffix =~= seg@);
                    assert(split_commas(suffix) == seq![seg@]);
                    lemma_clean_tokens_single(seg@);
                    assert(targets_spec(suffix) == token_of(seg@));
                }
                if !t.as_str().is_empty() {
                    proof {
                        lemma_push_view(ts@, t);
                        assert(token_of(seg@) =~= seq![t@]);
                    }
                    ts.push(t);
                } else {
                    proof {
                        assert(sofar + token_of(seg@) =~= sofar);
                    }
                }
                proof {
                    assert(Seq::new(ts@.len(), |i: int| ts@[i]@) =~= targets_spec(head@));
                }
                return ts;
            },
        }
    }
}

/// What one raw segment contributes to the target list: its trimmed form,
/// or nothing when that is empty.
pub open spec fn token_of(seg: Seq<char>) -> Seq<Seq<char>> {
    if trim_spec(seg).len() > 0 {
        seq![trim_spec(seg)]
    } else {
        Seq::empty()
    }
}

/// Pushing a string extends the sequence of views by its view.
proof fn lemma_push_view(ts: Seq<String>, t: String)
    ensures
        Seq::new(ts.push(t).len(), |i: int| ts.push(t)[i]@) =~= Seq::new(ts.len(), |i: int| ts[i]@)
            + seq![t@],
{
}

/// Cleaning distributes over splitting off the first segment.
proof fn lemma_clean_tokens_cons(seg: Seq<char>, rest: Seq<Seq<char>>)
    ensures
        clean_tokens(seq![seg] + rest) == token_of(seg) + clean_tokens(rest),
{
    let segs = seq![seg] + rest;
    assert(segs[0] == seg);
    assert(segs.drop_first() =~= rest);
    if trim_spec(seg).len() == 0 {
        assert(token_of(seg) + clean_tokens(rest) =~= clean_tokens(rest));
    }
}

/// Cleaning a single segment keeps its trimmed form when that is nonempty.
proof fn lemma_clean_tokens_single(seg: Seq<char>)
    ensures
        clean_tokens(seq![seg]) == token_of(seg),
{
    assert(seq![seg][0] == seg);
    assert(seq![seg].drop_first() =~= Seq::<Seq<char>>::empty());
    assert(clean_tokens(Seq::<Seq<char>>::empty()) == Seq::<Seq<char>>::empty());
    if trim_spec(seg).len() > 0 {
        assert(seq![trim_spec(seg)] + Seq::<Seq<char>>::empty() =~= seq![trim_spec(seg)]);
    }
}

/// Parses one raw text frame. Yields `None` exactly when the frame has no
/// colon; such a frame is logged and dropped by the caller and produces no
/// deliveries. Otherwise the message holds the cleaned target tokens and
/// the trimmed payload.
pub fn parse_frame(text: &str) -> (r: Option<RoutedMessage>)
    ensures
        r is Some <==> parse_spec(text@) is Some,
        r matches Some(m) ==> parse_spec(text@) == Some((m.targets_view(), m.payload@)),
{
    let n = text.unicode_len();
    match find_char_from(text, 0, ':') {
        Some(ci) => {
            proof {
                lemma_first_occurrence(text@, ':', ci as int);
            }
            let head = text.substring_char(0, ci);
            let tail = text.substring_char(ci + 1, n);
            let payload = trim_str(tail);
            let targets = split_targets(head);
            let m = RoutedMessage { targets, payload };
            proof {
                assert(m.targets_view() =~= Seq::new(targets@.len(), |i: int| targets@[i]@));
            }
            Some(m)
        },
        None => {
            proof {
                lemma_no_occurrence(text@, ':');
            }
            None
        },
    }
}

/// The handles the payload goes to: one per listed target that is
/// registered, in the listed order; unknown targets contribute nothing.
pub open spec fn deliveries_spec(reg: Map<Seq<char>, Handle>, targets: Seq<Seq<char>>) -> Seq<
    Handle,
>
    decreases targets.len(),
{
    if targets.len() == 0 {
        Seq::empty()
    } else {
        let rest = deliveries_spec(reg, targets.drop_first());
        if reg.contains_key(targets[0]) {
            seq![reg[targets[0]]] + rest
        } else {
            rest
        }
    }
}

/// The per-target report of one routing pass.
#[derive(Clone, Copy, PartialEq, Eq, Structural, Debug)]
pub enum TargetOutcome {
    /// The target was registered; its handle is in the delivery list.
    Found,
    /// The target was not registered; it is skipped, the rest of the list
    /// is still attempted.
    NotFound,
}

/// The planned fan-out of one parsed message: the handles to send the
/// payload through, in target-list order, and a report per listed target.
pub struct Dispatch {
    pub deliveries: Vec<Handle>,
    pub outcomes: Vec<TargetOutcome>,
}

/// Resolves each target of `msg` against the registry, in the listed
/// order. Unknown targets are reported and skipped; they do not stop the
/// remaining targets from being attempted, and nothing here ends the
/// sender's connection.
pub fn route(reg: &Registry, msg: &RoutedMessage) -> (d: Dispatch)
    requires
        reg.inv(),
    ensures
        d.deliveries@ == deliveries_spec(reg@, msg.targets_view()),
        d.outcomes@.len() == msg.targets_view().len(),
        forall|i: int|
            0 <= i < d.outcomes@.len() ==> (d.outcomes@[i] == TargetOutcome::Found
                <==> reg@.contains_key(msg.targets_view()[i])),
{
    let n = msg.targets.len();
    let mut deliveries: Vec<Handle> = Vec::new();
    let mut outcomes: Vec<TargetOutcome> = Vec::new();
    let mut i: usize = 0;
    proof {
        assert(msg.targets_view().skip(0) =~= msg.targets_view());
        assert(deliveries@ + deliveries_spec(reg@, msg.targets_view()) =~= deliveries_spec(
            reg@,
            msg.targets_view(),
        ));
    }
    while i < n
        invariant
            reg.inv(),
            i <= n,
            n == msg.targets@.len(),
            deliveries_spec(reg@, msg.targets_view()) == deliveries@ + deliveries_spec(
                reg@,
                msg.targets_view().skip(i as int),
            ),
            outcomes@.len() == i,
            forall|j: int|
                0 <= j < i ==> (outcomes@[j] == TargetOutcome::Found <==> reg@.contains_key(
                    msg.targets_view()[j],
                )),
        decreases n - i,
    {
        let ghost suffix = msg.targets_view().skip(i as int);
        proof {
            assert(suffix[0] == msg.targets_view()[i as int]);
            assert(suffix.drop_first() =~= msg.targets_view().skip(i as int + 1));
        }
        match reg.resolve(&msg.targets[i]) {
            Some(h) => {
                deliveries.push(h);
                outcomes.push(TargetOutcome::Found);
            },
            None => {
                outcomes.push(TargetOutcome::NotFound);
            },
        }
        i = i + 1;
    }
    proof {
        assert(msg.targets_view().skip(n as int) =~= Seq::<Seq<char>>::empty());
        assert(deliveries@ + Seq::<Handle>::empty() =~= deliveries@);
    }
    Dispatch { deliveries, outcomes }
}

/// A token that can stand as a target identifier in a frame head verbatim:
/// nonempty, and free of the separators and of the surrounding-whitespace
/// characters, so that splitting and trimming hand it back unchanged.
/// Server-assigned identifiers (`client<N>`) are all of this form.
pub open spec fn plain_token(t: Seq<char>) -> bool {
    t.len() > 0 && (forall|k: int|
        0 <= k < t.len() ==> t[k] != ':' && t[k] != ',' && !is_space(t[k]))
}

/// Law: a frame `B:payload` sent when `B` is registered parses to exactly
/// the single target `B`, and the payload is delivered to `B`'s handle
/// exactly once, unmodified.
pub proof fn lemma_single_target_delivery(reg: Map<Seq<char>, Handle>, b: Seq<char>, p: Seq<char>)
    requires
        reg.contains_key(b),
        plain_token(b),
        trim_spec(p) == p,
    ensures
        parse_spec(b + seq![':'] + p) == Some((seq![b], p)),
        deliveries_spec(reg, seq![b]) == seq![reg[b]],
{
    let s = b + seq![':'] + p;
    assert(s[b.len() as int] == ':');
    assert(forall|k: int| 0 <= k < b.len() ==> s[k] == b[k] && s[k] != ':');
    lemma_first_occurrence(s, ':', b.len() as int);
    assert(s.subrange(0, b.len() as int) =~= b);
    assert(s.subrange(b.len() as int + 1, s.len() as int) =~= p);
    lemma_plain_targets_single(b);
    lemma_deliveries_single(reg, b);
}

/// Law: a frame `B,C:payload` delivers the payload to `B` and to `C` in
/// that order when both are registered; when `C` is not registered, `B`
/// still receives the payload and `C` alone is skipped.
pub proof fn lemma_two_target_delivery(
    reg: Map<Seq<char>, Handle>,
    b: Seq<char>,
    c: Seq<char>,
    p: Seq<char>,
)
    requires
        reg.contains_key(b),
        plain_token(b),
        plain_token(c),
        trim_spec(p) == p,
    ensures
        parse_spec(b + seq![','] + c + seq![':'] + p) == Some((seq![b, c], p)),
        reg.contains_key(c) ==> deliveries_spec(reg, seq![b, c]) == seq![reg[b], reg[c]],
        !reg.contains_key(c) ==> deliveries_spec(reg, seq![b, c]) == seq![reg[b]],
{
    let head = b + seq![','] + c;
    let s = b + seq![','] + c + seq![':'] + p;
    assert(s =~= head + seq![':'] + p);
    assert(s[head.len() as int] == ':');
    assert(forall|k: int| 0 <= k < b.len() ==> head[k] == b[k]);
    assert(head[b.len() as int] == ',');
    assert(forall|k: int|
        b.len() + 1 <= k < head.len() ==> head[k] == c[k - b.len() - 1]);
    assert(forall|k: int| 0 <= k < head.len() ==> s[k] == head[k] && s[k] != ':');
    lemma_first_occurrence(s, ':', head.len() as int);
    assert(s.subrange(0, head.len() as int) =~= head);
    assert(s.subrange(head.len() as int + 1, s.len() as int) =~= p);
    // the head splits on its one comma into exactly `b` and `c`
    assert(forall|k: int| 0 <= k < b.len() ==> head[k] != ',');
    lemma_first_occurrence(head, ',', b.len() as int);
    assert(head.subrange(0, b.len() as int) =~= b);
    let after = head.subrange(b.len() as int + 1, head.len() as int);
    assert(after =~= c);
    lemma_plain_targets_single(c);
    lemma_clean_tokens_cons(b, split_commas(c));
    lemma_trim_clean(b);
    assert(token_of(b) =~= seq![b]);
    assert(targets_spec(head) == seq![b] + seq![c]);
    assert(seq![b] + seq![c] =~= seq![b, c]);
    // deliveries for the two targets, in order
    assert(seq![b, c].drop_first() =~= seq![c]);
    lemma_deliveries_single(reg, c);
    if reg.contains_key(c) {
        assert(deliveries_spec(reg, seq![b, c]) == seq![reg[b]] + seq![reg[c]]);
        assert(seq![reg[b]] + seq![reg[c]] =~= seq![reg[b], reg[c]]);
    } else {
        assert(deliveries_spec(reg, seq![c]) == Seq::<Handle>::empty());
        assert(seq![reg[b]] + Seq::<Handle>::empty() =~= seq![reg[b]]);
    }
}

/// Law: a frame without a colon is malformed; it parses to nothing, so it
/// produces zero deliveries, and rejecting it is not a terminal condition
/// for the sender's connection.
pub proof fn lemma_malformed_frame(s: Seq<char>)
    requires
        forall|k: int| 0 <= k < s.len() ==> s[k] != ':',
    ensures
        parse_spec(s) is None,
{
    lemma_no_occurrence(s, ':');
}

/// A head that is one plain token yields exactly that token.
proof fn lemma_plain_targets_single(b: Seq<char>)
    requires
        plain_token(b),
    ensures
        targets_spec(b) == seq![b],
{
    lemma_no_occurrence(b, ',');
    assert(split_commas(b) == seq![b]);
    lemma_clean_tokens_single(b);
    lemma_trim_clean(b);
    assert(token_of(b) =~= seq![b]);
}

/// Delivery to a single listed target: the handle when it is registered,
/// nothing when it is not.
pub proof fn lemma_deliveries_single(reg: Map<Seq<char>, Handle>, b: Seq<char>)
    ensures
        reg.contains_key(b) ==> deliveries_spec(reg, seq![b]) == seq![reg[b]],
        !reg.contains_key(b) ==> deliveries_spec(reg, seq![b]) == Seq::<Handle>::empty(),
{
    assert(seq![b][0] == b);
    assert(seq![b].drop_first() =~= Seq::<Seq<char>>::empty());
    assert(deliveries_spec(reg, Seq::<Seq<char>>::empty()) == Seq::<Handle>::empty());
    if reg.contains_key(b) {
        assert(seq![reg[b]] + Seq::<Handle>::empty() =~= seq![reg[b]]);
    }
}

} // verus!

