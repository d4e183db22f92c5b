//! Decoding of registration payloads.
//!
//! A put event's value is a sequence of newline-separated lines, each of
//! the form `name=value`.  A payload registers a backend when it carries
//! a `model_id` field and an `endpoint` field; the first line with a
//! given name wins, and lines with unknown names are ignored rather than
//! rejected, so the format can grow fields without breaking old readers.
//! A payload missing either required field fails to decode, and the
//! watcher skips the event.

use vstd::prelude::*;

use crate::entry::{EntryModel, ModelEntry, ModelKind};

verus! {

/// Separator between the lines of a payload (the newline byte).
pub const LINE_SEP: u8 = 10;

/// Separator between a field's name and its value (the `=` byte).
pub const FIELD_SEP: u8 = 61;

/// The bytes of the required field name `model_id`.
pub open spec fn model_id_name() -> Seq<u8> {
    seq![109u8, 111u8, 100u8, 101u8, 108u8, 95u8, 105u8, 100u8]
}

/// The bytes of the required field name `endpoint`.
pub open spec fn endpoint_name() -> Seq<u8> {
    seq![101u8, 110u8, 100u8, 112u8, 111u8, 105u8, 110u8, 116u8]
}

/// A payload split at its line separators; always at least one line.
pub open spec fn lines(s: Seq<u8>) -> Seq<Seq<u8>>
    decreases s.len(),
{
    if s.len() == 0 {
        seq![Seq::<u8>::empty()]
    } else if s[0] == LINE_SEP {
        seq![Seq::<u8>::empty()] + lines(s.drop_first())
    } else {
        let rest = lines(s.drop_first());
        seq![seq![s[0]] + rest[0]] + rest.drop_first()
    }
}

/// Whether a line is `name=` followed by a (possibly empty) value.
pub open spec fn is_field_line(l: Seq<u8>, name: Seq<u8>) -> bool {
    l.len() > name.len() && l.take(name.len() as int) == name && l[name.len() as int] == FIELD_SEP
}

/// The value of the first line naming the field, if any.
pub open spec fn first_field(ls: Seq<Seq<u8>>, name: Seq<u8>) -> Option<Seq<u8>>
    decreases ls.len(),
{
    if ls.len() == 0 {
        None
    } else if is_field_line(ls[0], name) {
        Some(ls[0].skip(name.len() as int + 1))
    } else {
        first_field(ls.drop_first(), name)
    }
}

/// The value the payload carries for the named field, if any.
pub open spec fn field_value(payload: Seq<u8>, name: Seq<u8>) -> Option<Seq<u8>> {
    first_field(lines(payload), name)
}

/// What a put event for `key` with payload `value` decodes to: an entry
/// of the watching kind when both required fields are present, nothing
/// otherwise.
pub open spec fn decoded_entry(
    kind: ModelKind,
    key: Seq<u8>,
    value: Seq<u8>,
    revision: u64,
) -> Option<EntryModel> {
    match (field_value(value, model_id_name()), field_value(value, endpoint_name())) {
        (Some(m), Some(e)) => Some(
            EntryModel {
                model_id: m,
                model_kind: kind,
                endpoint: e,
                source_key: key,
                revision: revision,
            },
        ),
        _ => None,
    }
}

/// The first line of `t` runs to index `k` when no separator stands
/// before `k` and `k` is a separator or the end; the remaining lines are
/// the lines of what follows.
pub proof fn lemma_lines_first(t: Seq<u8>, k: int)
    requires
        0 <= k <= t.len(),
        forall|m: int| 0 <= m < k ==> t[m] != LINE_SEP,
        k < t.len() ==> t[k] == LINE_SEP,
    ensures
        lines(t).len() >= 1,
        lines(t)[0] == t.take(k),
        k < t.len() ==> lines(t) =~~= seq![t.take(k)] + lines(t.skip(k + 1)),
        k == t.len() ==> lines(t) =~~= seq![t],
    decreases t.len(),
{
    if t.len() == 0 {
        assert(t.take(0) =~= t);
    } else if t[0] == LINE_SEP {
        assert(k == 0);
        assert(t.take(0) =~= Seq::<u8>::empty());
        assert(t.skip(1) =~= t.drop_first());
    } else {
        assert(k >= 1);
        assert forall|m: int| 0 <= m < k - 1 implies t.drop_first()[m] != LINE_SEP by {
            assert(t.drop_first()[m] == t[m + 1]);
        }
        if k - 1 < t.drop_first().len() {
            assert(t.drop_first()[k - 1] == t[k]);
        }
        lemma_lines_first(t.drop_first(), k - 1);
        let rest = lines(t.drop_first());
        assert(rest[0] == t.drop_first().take(k - 1));
        assert(seq![t[0]] + t.drop_first().take(k - 1) =~= t.take(k));
        assert(lines(t)[0] == t.take(k));
        if k < t.len() {
            assert(rest =~~= seq![t.drop_first().take(k - 1)] + lines(t.drop_first().skip(k)));
            assert(t.drop_first().skip(k - 1 + 1) =~= t.skip(k + 1));
            assert(rest.drop_first() =~~= lines(t.skip(k + 1)));
            assert(lines(t) =~~= seq![t.take(k)] + lines(t.skip(k + 1)));
        } else {
            assert(rest =~~= seq![t.drop_first()]);
            assert(seq![t[0]] + t.drop_first() =~= t);
            assert(lines(t) =~~= seq![t]);
        }
    }
}

/// Copy of `payload[start..end]`.
fn copy_range(payload: &Vec<u8>, start: usize, end: usize) -> (r: Vec<u8>)
    requires
        start <= end <= payload@.len(),
    ensures
        r@ == payload@.subrange(start as int, end as int),
{
    let mut r: Vec<u8> = Vec::new();
    let mut t = start;
    proof {
        assert(r@ =~= payload@.subrange(start as int, start as int));
    }
    while t < end
        invariant
            start <= t <= end <= payload@.len(),
            r@ == payload@.subrange(start as int, t as int),
        decreases end - t,
    {
        r.push(payload[t]);
        proof {
            assert(r@ =~= payload@.subrange(start as int, t as int + 1));
        }
        t += 1;
    }
    r
}

/// Whether `payload[pos..pos + name.len()]` spells `name`.
fn match_at(payload: &Vec<u8>, pos: usize, name: &Vec<u8>) -> (r: bool)
    requires
        pos + name@.len() <= payload@.len(),
    ensures
        r <==> payload@.subrange(pos as int, pos as int + name@.len() as int) == name@,
{
    let n = name.len();
    let plen = payload.len();
    let mut i: usize = 0;
    while i < n
        invariant
            n == name@.len(),
            plen == payload@.len(),
            pos + n <= plen,
            0 <= i <= n,
            forall|j: int| 0 <= j < i ==> payload@[pos + j] == name@[j],
        decreases n - i,
    {
        if payload[pos + i] != name[i] {
            proof {
                assert(payload@.subrange(pos as int, pos as int + n as int)[i as int]
                    != name@[i as int]);
            }
            return false;
        }
        i += 1;
    }
    proof {
        assert(payload@.subrange(pos as int, pos as int + n as int) =~= name@);
    }
    true
}

/// The value of the first line of `payload` that names the field, if
/// any; unknown lines are skipped.
pub fn find_field(payload: &Vec<u8>, name: &Vec<u8>) -> (r: Option<Vec<u8>>)
    ensures
        match r {
            Some(v) => field_value(payload@, name@) == Some(v@),
            None => field_value(payload@, name@) is None,
        },
{
    let n = payload.len();
    let nl = name.len();
    let mut pos: usize = 0;
    proof {
        assert(payload@.skip(0) =~= payload@);
    }
    loop
        invariant
            n == payload@.len(),
            nl == name@.len(),
            0 <= pos <= n,
            field_value(payload@, name@) == first_field(
                lines(payload@.skip(pos as int)),
                name@,
            ),
        decreases n - pos,
    {
        // scan to the end of the current line
        let mut end = pos;
        while end < n && payload[end] != LINE_SEP
            invariant
                n == payload@.len(),
                pos <= end <= n,
                forall|m: int| pos <= m < end ==> payload@[m] != LINE_SEP,
            decreases n - end,
        {
            end += 1;
        }
        let ghost suffix = payload@.skip(pos as int);
        let ghost k = end - pos;
        proof {
            assert(suffix.len() == n - pos);
            assert forall|m: int| 0 <= m < k implies suffix[m] != LINE_SEP by {
                assert(suffix[m] == payload@[pos + m]);
            }
            if (k as int) < suffix.len() {
                assert(suffix[k as int] == payload@[end as int]);
            }
            lemma_lines_first(suffix, k as int);
            assert(suffix.take(k as int) =~= payload@.subrange(pos as int, end as int));
        }
        let ghost line = payload@.subrange(pos as int, end as int);
        // does this line name the field?
        let hit = if end - pos > nl {
            if payload[pos + nl] == FIELD_SEP {
                match_at(payload, pos, name)
            } else {
                false
            }
        } else {
            false
        };
        if hit {
            proof {
                assert(line.take(nl as int) =~= payload@.subrange(
                    pos as int,
                    pos as int + nl as int,
                ));
                assert(line[nl as int] == payload@[pos + nl]);
                assert(is_field_line(line, name@));
                assert(first_field(lines(suffix), name@) == Some(line.skip(nl as int + 1)));
            }
            let v = copy_range(payload, pos + nl + 1, end);
            proof {
                assert(v@ =~= line.skip(nl as int + 1));
            }
            return Some(v);
        }
        proof {
            if end - pos > nl {
                assert(line.take(nl as int) =~= payload@.subrange(
                    pos as int,
                    pos as int + nl as int,
                ));
                assert(line[nl as int] == payload@[pos + nl]);
            }
            assert(!is_field_line(line, name@));
        }
        if end == n {
            proof {
                assert(lines(suffix) =~~= seq![line]);
                assert(seq![line].drop_first() =~= Seq::<Seq<u8>>::empty());
                assert(first_field(Seq::<Seq<u8>>::empty(), name@) is None);
                assert(first_field(seq![line], name@) == first_field(
                    seq![line].drop_first(),
                    name@,
                ));
                assert(first_field(lines(suffix), name@) is None);
            }
            return None;
        }
        proof {
            assert(lines(suffix) =~~= seq![line] + lines(suffix.skip(k as int + 1)));
            assert((seq![line] + lines(suffix.skip(k as int + 1))).drop_first() =~~= lines(
                suffix.skip(k as int + 1),
            ));
            assert(first_field(lines(suffix), name@) == first_field(
                lines(suffix.skip(k as int + 1)),
                name@,
            ));
            assert(suffix.skip(k as int + 1) =~= payload@.skip(end as int + 1));
        }
        pos = end + 1;
    }
}

/// The bytes of the field name `model_id`.
pub fn model_id_field() -> (r: Vec<u8>)
    ensures
        r@ == model_id_name(),
{
    let mut v: Vec<u8> = Vec::new();
    v.push(109);
    v.push(111);
    v.push(100);
    v.push(101);
    v.push(108);
    v.push(95);
    v.push(105);
    v.push(100);
    proof {
        assert(v@ =~= model_id_name());
    }
    v
}

/// The bytes of the field name `endpoint`.
pub fn endpoint_field() -> (r: Vec<u8>)
    ensures
        r@ == endpoint_name(),
{
    let mut v: Vec<u8> = Vec::new();
    v.push(101);
    v.push(110);
    v.push(100);
    v.push(112);
    v.push(111);
    v.push(105);
    v.push(110);
    v.push(116);
    proof {
        assert(v@ =~= endpoint_name());
    }
    v
}

/// Decode one put event into an entry of the watching kind, or nothing
/// when the payload lacks a required field.
pub fn decode_record(kind: ModelKind, key: &Vec<u8>, value: &Vec<u8>, revision: u64) -> (r: Option<
    ModelEntry,
>)
    ensures
        match r {
            Some(e) => decoded_entry(kind, key@, value@, revision) == Some(e@),
            None => decoded_entry(kind, key@, value@, revision) is None,
        },
{
    let name_m = model_id_field();
    let name_e = endpoint_field();
    let field_m = find_field(value, &name_m);
    let field_e = find_field(value, &name_e);
    match (field_m, field_e) {
        (Some(model_id), Some(endpoint)) => {
            let source_key = key.clone();
            proof {
                assert(source_key@ =~= key@);
            }
            Some(
                ModelEntry {
                    model_id,
                    model_kind: kind,
                    endpoint,
                    source_key,
                    revision,
                },
            )
        },
        _ => None,
    }
}

} // verus!
