//! Recorded exchanges, and the choice of the one that answers a request.
use vstd::prelude::*;

use crate::httpmsg::HeaderSeq;
use crate::search::{first_where, lemma_first_where, lemma_is_first_where, lemma_none_where};
use crate::text::{same_bytes, same_text};

verus! {

#[derive(Debug, Clone, PartialEq)]
pub struct RecordedExchange {
    pub method: String,
    pub path: String,
    pub request_body: Vec<u8>,
    pub status: u16,
    pub headers: Vec<(String, String)>,
    pub response_body: Vec<u8>,
}

#[derive(Debug, Clone, PartialEq)]
pub struct Recording {
    pub entries: Vec<RecordedExchange>,
}

/// What a [`RecordedExchange`] says.
#[verifier::ext_equal]
pub struct ExchangeModel {
    pub method: Seq<char>,
    pub path: Seq<char>,
    pub request_body: Seq<u8>,
    pub status: u16,
    pub headers: HeaderSeq,
    pub response_body: Seq<u8>,
}

impl View for RecordedExchange {
    type V = ExchangeModel;

    open spec fn view(&self) -> ExchangeModel {
        ExchangeModel {
            method: self.method@,
            path: self.path@,
            request_body: self.request_body@,
            status: self.status,
            headers: self.headers.deep_view(),
            response_body: self.response_body@,
        }
    }
}

/// The exchanges of a recording, oldest first.
impl View for Recording {
    type V = Seq<ExchangeModel>;

    open spec fn view(&self) -> Seq<ExchangeModel> {
        self.entries@.map_values(|e: RecordedExchange| e@)
    }
}

/// The model of an exchange says what each of its parts says.
pub proof fn law_exchange_model(e: RecordedExchange)
    ensures
        e@.method == e.method@,
        e@.path == e.path@,
        e@.request_body == e.request_body@,
        e@.status == e.status,
        e@.headers.len() == e.headers@.len(),
        forall|i: int|
            0 <= i < e.headers@.len() ==> #[trigger] e@.headers[i] == (
                e.headers@[i].0@,
                e.headers@[i].1@,
            ),
        e@.response_body == e.response_body@,
{
}

/// The model of a recording has every exchange of it, in order.
pub proof fn law_recording_model(recording: Recording)
    ensures
        recording@.len() == recording.entries@.len(),
        forall|i: int|
            0 <= i < recording.entries@.len() ==> #[trigger] recording@[i]
                == recording.entries@[i]@,
{
}

impl Default for Recording {
    /// A recording of nothing.
    fn default() -> (r: Recording)
        ensures
            r@ == Seq::<ExchangeModel>::empty(),
            r.entries@.len() == 0,
    {
        let r = Recording { entries: Vec::new() };
        assert(r@ =~= Seq::empty());
        r
    }
}

/// The exchange was recorded for this method and path.
pub open spec fn same_target(e: ExchangeModel, method: Seq<char>, path: Seq<char>) -> bool {
    e.method == method && e.path == path
}

/// The exchange was recorded for this very method, path and body.
pub open spec fn same_request(
    e: ExchangeModel,
    method: Seq<char>,
    path: Seq<char>,
    body: Seq<u8>,
) -> bool {
    same_target(e, method, path) && e.request_body == body
}

/// The position of the first exchange recorded for this method, path and body.
pub open spec fn exact_match(
    entries: Seq<ExchangeModel>,
    method: Seq<char>,
    path: Seq<char>,
    body: Seq<u8>,
) -> Option<int> {
    first_where(entries, |e: ExchangeModel| same_request(e, method, path, body))
}

/// The position of the first exchange recorded for this method and path.
pub open spec fn target_match(
    entries: Seq<ExchangeModel>,
    method: Seq<char>,
    path: Seq<char>,
) -> Option<int> {
    first_where(entries, |e: ExchangeModel| same_target(e, method, path))
}

/// The position of the exchange that answers a request: the first with the
/// same method, path and body, and failing that the first with the same method
/// and path.
pub open spec fn match_position(
    entries: Seq<ExchangeModel>,
    method: Seq<char>,
    path: Seq<char>,
    body: Seq<u8>,
) -> Option<int> {
    match exact_match(entries, method, path, body) {
        Some(i) => Some(i),
        None => target_match(entries, method, path),
    }
}

/// The recorded exchange to replay for a request. An exact match on method,
/// path and body comes first: it tells two `POST`s to one path apart by their
/// bodies. Failing that, method and path are enough, so that a body that does
/// not matter need not have been recorded.
pub fn find_match<'a>(recording: &'a Recording, method: &str, path: &str, body: &[u8]) -> (r:
    Option<&'a RecordedExchange>)
    ensures
        match match_position(recording@, method@, path@, body@) {
            Some(i) => 0 <= i < recording.entries@.len() && r == Some(&recording.entries@[i]),
            None => r is None,
        },
        r matches Some(e) ==> e.method@ == method@ && e.path@ == path@,
        forall|i: int|
            0 <= i < recording.entries@.len() && (#[trigger] recording.entries@[i]).method@
                == method@ && recording.entries@[i].path@ == path@
                && recording.entries@[i].request_body@ == body@ && (forall|j: int|
                0 <= j < i ==> !((#[trigger] recording.entries@[j]).method@ == method@
                    && recording.entries@[j].path@ == path@
                    && recording.entries@[j].request_body@ == body@)) ==> r == Some(
                &recording.entries@[i],
            ),
        forall|i: int|
            0 <= i < recording.entries@.len() && (#[trigger] recording.entries@[i]).method@
                == method@ && recording.entries@[i].path@ == path@ && (forall|j: int|
                0 <= j < i ==> !((#[trigger] recording.entries@[j]).method@ == method@
                    && recording.entries@[j].path@ == path@)) && (forall|j: int|
                0 <= j < recording.entries@.len() ==> !((#[trigger] recording.entries@[j]).method@
                    == method@ && recording.entries@[j].path@ == path@
                    && recording.entries@[j].request_body@ == body@)) ==> r == Some(
                &recording.entries@[i],
            ),
        (forall|i: int|
            0 <= i < recording.entries@.len() ==> !((#[trigger] recording.entries@[i]).method@
                == method@ && recording.entries@[i].path@ == path@)) ==> r is None,
{
    let ghost model = recording@;
    let ghost exact = |e: ExchangeModel| same_request(e, method@, path@, body@);
    let ghost target = |e: ExchangeModel| same_target(e, method@, path@);
    let mut fallback: Option<usize> = None;
    let mut i: usize = 0;
    while i < recording.entries.len()
        invariant
            i <= recording.entries@.len(),
            model == recording@,
            exact == (|e: ExchangeModel| same_request(e, method@, path@, body@)),
            target == (|e: ExchangeModel| same_target(e, method@, path@)),
            forall|j: int| 0 <= j < i ==> !exact(#[trigger] model[j]),
            match fallback {
                Some(k) => k < i && target(model[k as int]) && (forall|j: int|
                    0 <= j < k ==> !target(#[trigger] model[j])),
                None => forall|j: int| 0 <= j < i ==> !target(#[trigger] model[j]),
            },
        decreases recording.entries.len() - i,
    {
        let entry = &recording.entries[i];
        assert(model[i as int] == entry@);
        if same_text(entry.method.as_str(), method) && same_text(entry.path.as_str(), path) {
            if same_bytes(entry.request_body.as_slice(), body) {
                proof {
                    lemma_is_first_where(model, exact, i as int);
                    lemma_match_on_fields(*recording, method@, path@, body@);
                }
                return Some(entry);
            }
            if fallback.is_none() {
                fallback = Some(i);
            }
        }
        i = i + 1;
    }
    proof {
        lemma_none_where(model, exact);
        lemma_match_on_fields(*recording, method@, path@, body@);
    }
    match fallback {
        Some(k) => {
            proof {
                lemma_is_first_where(model, target, k as int);
            }
            Some(&recording.entries[k])
        },
        None => {
            proof {
                lemma_none_where(model, target);
            }
            None
        },
    }
}

/// The exchange that answers a request is the first recorded for its method,
/// path and body. Where there is none, it is the first recorded for its method
/// and path, and where there is none of those either, nothing answers it.
pub proof fn law_match_prefers_the_exact_request(
    entries: Seq<ExchangeModel>,
    method: Seq<char>,
    path: Seq<char>,
    body: Seq<u8>,
)
    ensures
        match match_position(entries, method, path, body) {
            Some(i) => {
                &&& 0 <= i < entries.len()
                &&& same_target(entries[i], method, path)
                &&& same_request(entries[i], method, path, body) ==> forall|j: int|
                    0 <= j < i ==> !same_request(#[trigger] entries[j], method, path, body)
                &&& !same_request(entries[i], method, path, body) ==> {
                    &&& forall|j: int|
                        0 <= j < entries.len() ==> !same_request(
                            #[trigger] entries[j],
                            method,
                            path,
                            body,
                        )
                    &&& forall|j: int|
                        0 <= j < i ==> !same_target(#[trigger] entries[j], method, path)
                }
            },
            None => forall|j: int|
                0 <= j < entries.len() ==> !same_target(#[trigger] entries[j], method, path),
        },
{
    let p = |e: ExchangeModel| same_request(e, method, path, body);
    let q = |e: ExchangeModel| same_target(e, method, path);
    lemma_first_where(entries, p);
    lemma_first_where(entries, q);
    assert(forall|e: ExchangeModel| #[trigger] p(e) == same_request(e, method, path, body));
    assert(forall|e: ExchangeModel| #[trigger] q(e) == same_target(e, method, path));
    match first_where(entries, p) {
        Some(i) => {
            assert forall|j: int| 0 <= j < i implies !same_request(
                #[trigger] entries[j],
                method,
                path,
                body,
            ) by {
                assert(!p(entries[j]));
            }
        },
        None => {
            assert forall|j: int| 0 <= j < entries.len() implies !same_request(
                #[trigger] entries[j],
                method,
                path,
                body,
            ) by {
                assert(!p(entries[j]));
            }
            match first_where(entries, q) {
                Some(i) => {
                    assert forall|j: int| 0 <= j < i implies !same_target(
                        #[trigger] entries[j],
                        method,
                        path,
                    ) by {
                        assert(!q(entries[j]));
                    }
                },
                None => {
                    assert forall|j: int| 0 <= j < entries.len() implies !same_target(
                        #[trigger] entries[j],
                        method,
                        path,
                    ) by {
                        assert(!q(entries[j]));
                    }
                },
            }
        },
    }
}

/// The exchange that answers a request has its method and its path, character
/// for character. Where an exchange has its body too, the first such answers it;
/// otherwise the first with its method and path does, and where no exchange has
/// both, nothing answers it.
pub proof fn law_match_is_by_method_path_and_body(
    entries: Seq<ExchangeModel>,
    method: Seq<char>,
    path: Seq<char>,
    body: Seq<u8>,
)
    ensures
        match match_position(entries, method, path, body) {
            Some(i) => {
                &&& 0 <= i < entries.len()
                &&& entries[i].method == method
                &&& entries[i].path == path
                &&& if entries[i].request_body == body {
                    forall|j: int|
                        0 <= j < i && (#[trigger] entries[j]).method == method && entries[j].path
                            == path ==> entries[j].request_body != body
                } else {
                    &&& forall|j: int|
                        0 <= j < entries.len() && (#[trigger] entries[j]).method == method
                            && entries[j].path == path ==> entries[j].request_body != body
                    &&& forall|j: int|
                        0 <= j < i && (#[trigger] entries[j]).method == method ==> entries[j].path
                            != path
                }
            },
            None => forall|j: int|
                0 <= j < entries.len() && (#[trigger] entries[j]).method == method
                    ==> entries[j].path != path,
        },
{
    law_match_prefers_the_exact_request(entries, method, path, body);
}

/// The same of the exchanges of a recording.
proof fn lemma_match_on_fields(
    recording: Recording,
    method: Seq<char>,
    path: Seq<char>,
    body: Seq<u8>,
)
    ensures
        match_position(recording@, method, path, body) matches Some(i) ==> {
            &&& recording.entries@[i].method@ == method
            &&& recording.entries@[i].path@ == path
        },
        forall|i: int|
            0 <= i < recording.entries@.len() && (#[trigger] recording.entries@[i]).method@
                == method && recording.entries@[i].path@ == path
                && recording.entries@[i].request_body@ == body && (forall|j: int|
                0 <= j < i ==> !((#[trigger] recording.entries@[j]).method@ == method
                    && recording.entries@[j].path@ == path
                    && recording.entries@[j].request_body@ == body)) ==> match_position(
                recording@,
                method,
                path,
                body,
            ) == Some(i),
        forall|i: int|
            0 <= i < recording.entries@.len() && (#[trigger] recording.entries@[i]).method@
                == method && recording.entries@[i].path@ == path && (forall|j: int|
                0 <= j < i ==> !((#[trigger] recording.entries@[j]).method@ == method
                    && recording.entries@[j].path@ == path)) && (forall|j: int|
                0 <= j < recording.entries@.len() ==> !((#[trigger] recording.entries@[j]).method@
                    == method && recording.entries@[j].path@ == path
                    && recording.entries@[j].request_body@ == body)) ==> match_position(
                recording@,
                method,
                path,
                body,
            ) == Some(i),
        (forall|i: int|
            0 <= i < recording.entries@.len() ==> !((#[trigger] recording.entries@[i]).method@
                == method && recording.entries@[i].path@ == path)) ==> match_position(
            recording@,
            method,
            path,
            body,
        ) is None,
{
    let model = recording@;
    let entries = recording.entries@;
    law_match_is_by_method_path_and_body(model, method, path, body);
    assert(forall|j: int| 0 <= j < entries.len() ==> model[j] == (#[trigger] entries[j])@);
    assert(forall|j: int| 0 <= j < entries.len() ==> (#[trigger] model[j]) == entries[j]@);
    let found = match_position(model, method, path, body);
    assert forall|i: int|
        0 <= i < entries.len() && (#[trigger] entries[i]).method@ == method && entries[i].path@
            == path && entries[i].request_body@ == body && (forall|j: int|
            0 <= j < i ==> !((#[trigger] entries[j]).method@ == method && entries[j].path@ == path
                && entries[j].request_body@ == body)) implies found == Some(i) by {
        assert(model[i] == entries[i]@);
        let k = found->0;
        assert(model[k] == entries[k]@);
    }
    assert forall|i: int|
        0 <= i < entries.len() && (#[trigger] entries[i]).method@ == method && entries[i].path@
            == path && (forall|j: int|
            0 <= j < i ==> !((#[trigger] entries[j]).method@ == method && entries[j].path@
                == path)) && (forall|j: int|
            0 <= j < entries.len() ==> !((#[trigger] entries[j]).method@ == method
                && entries[j].path@ == path && entries[j].request_body@
                == body)) implies found == Some(i) by {
        assert(model[i] == entries[i]@);
        let k = found->0;
        assert(model[k] == entries[k]@);
    }
}

/// A request that has an exact match keeps it, whatever is recorded later.
pub proof fn law_exact_match_is_kept(
    entries: Seq<ExchangeModel>,
    later: Seq<ExchangeModel>,
    method: Seq<char>,
    path: Seq<char>,
    body: Seq<u8>,
)
    requires
        exact_match(entries, method, path, body) is Some,
    ensures
        match_position(entries + later, method, path, body) == match_position(
            entries,
            method,
            path,
            body,
        ),
{
    let p = |e: ExchangeModel| same_request(e, method, path, body);
    lemma_first_where(entries, p);
    let i = first_where(entries, p)->0;
    assert((entries + later)[i] == entries[i]);
    assert forall|j: int| 0 <= j < i implies !p(#[trigger] (entries + later)[j]) by {
        assert(!p(entries[j]));
    }
    lemma_is_first_where(entries + later, p, i);
}

/// The exchange just recorded answers its own request, unless the same request
/// was recorded before: then the first recording of it does.
pub proof fn law_recorded_exchange_is_found(entries: Seq<ExchangeModel>, e: ExchangeModel)
    ensures
        match_position(entries.push(e), e.method, e.path, e.request_body) == match exact_match(
            entries,
            e.method,
            e.path,
            e.request_body,
        ) {
            Some(i) => Some(i),
            None => Some(entries.len() as int),
        },
{
    assert(entries.push(e).drop_last() =~= entries);
}

/// Recording an exchange does not change the answer to a request for another
/// method or path.
pub proof fn law_other_targets_are_unaffected(
    entries: Seq<ExchangeModel>,
    e: ExchangeModel,
    method: Seq<char>,
    path: Seq<char>,
    body: Seq<u8>,
)
    requires
        !same_target(e, method, path),
    ensures
        match_position(entries.push(e), method, path, body) == match_position(
            entries,
            method,
            path,
            body,
        ),
{
    assert(entries.push(e).drop_last() =~= entries);
}

} // verus!
