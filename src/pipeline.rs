//! The ordered middleware chain that wraps every request, and a model of how
//! a request and its response pass through it.
use vstd::prelude::*;

verus! {

/// One transformer of the chain.
#[derive(Clone, Copy, Debug, PartialEq, Eq, Structural)]
pub enum Layer {
    /// A tracing span over the whole request.
    Trace,
    /// Gives the request a correlation identifier where it carries none.
    SetRequestId,
    /// Copies the request's identifier onto the response.
    PropagateRequestId,
    /// Counts each completed request and its status.
    Metrics,
    /// Compresses the response where the client accepts it.
    Compression,
    /// Rejects a request whose body is over the limit.
    BodyLimit,
    /// The cross-origin policy.
    Cors,
}

/// The chain, outermost first.
pub open spec fn layer_order() -> Seq<Layer> {
    seq![
        Layer::Trace,
        Layer::SetRequestId,
        Layer::PropagateRequestId,
        Layer::Metrics,
        Layer::Compression,
        Layer::BodyLimit,
        Layer::Cors,
    ]
}

/// The chain, outermost first: each layer runs around all that follow it.
pub fn pipeline_layers() -> (r: Vec<Layer>)
    ensures
        r@ == layer_order(),
{
    let mut r: Vec<Layer> = Vec::new();
    r.push(Layer::Trace);
    r.push(Layer::SetRequestId);
    r.push(Layer::PropagateRequestId);
    r.push(Layer::Metrics);
    r.push(Layer::Compression);
    r.push(Layer::BodyLimit);
    r.push(Layer::Cors);
    assert(r@ =~= layer_order());
    r
}

/// The status with which an oversized request is rejected.
pub const PAYLOAD_TOO_LARGE: u16 = 413;

/// What comes out of the chain for one request.
#[derive(Clone, Debug)]
pub struct Outcome {
    pub status: u16,
    /// Whether the route handler ran.
    pub handler_ran: bool,
    /// The status that the metrics layer recorded, if the request passed it.
    pub recorded: Option<u16>,
    /// The correlation identifier on the response.
    pub request_id: Option<String>,
}

pub open spec fn opt_view(o: Option<String>) -> Option<Seq<char>> {
    match o {
        Some(s) => Some(s@),
        None => None,
    }
}

/// The model of an outcome.
pub struct Passage {
    pub status: u16,
    pub handler_ran: bool,
    pub recorded: Option<u16>,
    pub request_id: Option<Seq<char>>,
}

impl Outcome {
    pub open spec fn passage(&self) -> Passage {
        Passage {
            status: self.status,
            handler_ran: self.handler_ran,
            recorded: self.recorded,
            request_id: opt_view(self.request_id),
        }
    }
}

/// How a request with a body of `body_len` bytes and the identifier `id` passes
/// through `layers`, where `fresh` is the identifier a new request would get,
/// `limit` the body limit, and `handler_status` what the route handler answers.
pub open spec fn passage_through(
    layers: Seq<Layer>,
    body_len: nat,
    id: Option<Seq<char>>,
    fresh: Seq<char>,
    limit: nat,
    handler_status: u16,
) -> Passage
    decreases layers.len(),
{
    if layers.len() == 0 {
        Passage { status: handler_status, handler_ran: true, recorded: None, request_id: None }
    } else {
        let rest = layers.drop_first();
        match layers[0] {
            Layer::SetRequestId => passage_through(
                rest,
                body_len,
                if id is Some {
                    id
                } else {
                    Some(fresh)
                },
                fresh,
                limit,
                handler_status,
            ),
            Layer::PropagateRequestId => {
                let o = passage_through(rest, body_len, id, fresh, limit, handler_status);
                Passage {
                    request_id: if o.request_id is Some {
                        o.request_id
                    } else {
                        id
                    },
                    ..o
                }
            },
            Layer::Metrics => {
                let o = passage_through(rest, body_len, id, fresh, limit, handler_status);
                Passage { recorded: Some(o.status), ..o }
            },
            Layer::BodyLimit => if body_len > limit {
                Passage {
                    status: 413,
                    handler_ran: false,
                    recorded: None,
                    request_id: None,
                }
            } else {
                passage_through(rest, body_len, id, fresh, limit, handler_status)
            },
            _ => passage_through(rest, body_len, id, fresh, limit, handler_status),
        }
    }
}

fn run_from(
    layers: &Vec<Layer>,
    i: usize,
    body_len: usize,
    id: Option<String>,
    fresh: &String,
    limit: usize,
    handler_status: u16,
) -> (r: Outcome)
    requires
        i <= layers@.len(),
    ensures
        r.passage() == passage_through(
            layers@.subrange(i as int, layers@.len() as int),
            body_len as nat,
            opt_view(id),
            fresh@,
            limit as nat,
            handler_status,
        ),
    decreases layers@.len() - i,
{
    let ghost rest = layers@.subrange(i as int, layers@.len() as int);
    if i == layers.len() {
        return Outcome { status: handler_status, handler_ran: true, recorded: None, request_id: None };
    }
    assert(rest.drop_first() =~= layers@.subrange(i + 1, layers@.len() as int));
    assert(rest[0] == layers@[i as int]);
    match layers[i] {
        Layer::SetRequestId => {
            let next_id = match id {
                Some(s) => Some(s),
                None => Some(fresh.clone()),
            };
            run_from(layers, i + 1, body_len, next_id, fresh, limit, handler_status)
        },
        Layer::PropagateRequestId => {
            let kept = id.clone();
            let o = run_from(layers, i + 1, body_len, id, fresh, limit, handler_status);
            let request_id = match o.request_id {
                Some(s) => Some(s),
                None => kept,
            };
            Outcome { status: o.status, handler_ran: o.handler_ran, recorded: o.recorded, request_id }
        },
        Layer::Metrics => {
            let o = run_from(layers, i + 1, body_len, id, fresh, limit, handler_status);
            Outcome {
                status: o.status,
                handler_ran: o.handler_ran,
                recorded: Some(o.status),
                request_id: o.request_id,
            }
        },
        Layer::BodyLimit => {
            if body_len > limit {
                Outcome {
                    status: PAYLOAD_TOO_LARGE,
                    handler_ran: false,
                    recorded: None,
                    request_id: None,
                }
            } else {
                run_from(layers, i + 1, body_len, id, fresh, limit, handler_status)
            }
        },
        _ => run_from(layers, i + 1, body_len, id, fresh, limit, handler_status),
    }
}

/// Passes a request through `layers`, outermost first: the layers before the
/// handler act on the request in order, and on the way back each acts on the
/// response in reverse order. A layer that rejects the request stops it there.
pub fn run_pipeline(
    layers: &Vec<Layer>,
    body_len: usize,
    request_id: Option<String>,
    fresh_id: &String,
    body_limit: usize,
    handler_status: u16,
) -> (r: Outcome)
    ensures
        r.passage() == passage_through(
            layers@,
            body_len as nat,
            opt_view(request_id),
            fresh_id@,
            body_limit as nat,
            handler_status,
        ),
{
    assert(layers@.subrange(0, layers@.len() as int) =~= layers@);
    run_from(layers, 0, body_len, request_id, fresh_id, body_limit, handler_status)
}

/// The route label of a completed request: the matched route, or the raw path
/// where no route matched.
pub fn route_label(matched: Option<String>, path: String) -> (r: String)
    ensures
        matched matches Some(m) ==> r@ == m@,
        matched is None ==> r@ == path@,
{
    match matched {
        Some(m) => m,
        None => path,
    }
}

proof fn lemma_standard_passage(
    body_len: nat,
    id: Option<Seq<char>>,
    fresh: Seq<char>,
    limit: nat,
    handler_status: u16,
)
    ensures
        ({
            let set_id = if id is Some {
                id
            } else {
                Some(fresh)
            };
            let inner = if body_len > limit {
                Passage { status: 413, handler_ran: false, recorded: None, request_id: None }
            } else {
                Passage {
                    status: handler_status,
                    handler_ran: true,
                    recorded: None,
                    request_id: None,
                }
            };
            passage_through(layer_order(), body_len, id, fresh, limit, handler_status) == Passage {
                status: inner.status,
                handler_ran: inner.handler_ran,
                recorded: Some(inner.status),
                request_id: set_id,
            }
        }),
{
    let l = layer_order();
    let set_id = if id is Some {
        id
    } else {
        Some(fresh)
    };
    assert(l.drop_first().drop_first().drop_first().drop_first().drop_first().drop_first().drop_first()
        =~= Seq::<Layer>::empty());
    assert(l.drop_first().drop_first().drop_first().drop_first().drop_first().drop_first()
        =~= seq![Layer::Cors]);
    assert(l.drop_first().drop_first().drop_first().drop_first().drop_first() =~= seq![
        Layer::BodyLimit,
        Layer::Cors,
    ]);
    assert(l.drop_first().drop_first().drop_first().drop_first() =~= seq![
        Layer::Compression,
        Layer::BodyLimit,
        Layer::Cors,
    ]);
    assert(l.drop_first().drop_first().drop_first() =~= seq![
        Layer::Metrics,
        Layer::Compression,
        Layer::BodyLimit,
        Layer::Cors,
    ]);
    assert(l.drop_first().drop_first() =~= seq![
        Layer::PropagateRequestId,
        Layer::Metrics,
        Layer::Compression,
        Layer::BodyLimit,
        Layer::Cors,
    ]);
    assert(l.drop_first() =~= seq![
        Layer::SetRequestId,
        Layer::PropagateRequestId,
        Layer::Metrics,
        Layer::Compression,
        Layer::BodyLimit,
        Layer::Cors,
    ]);
    reveal_with_fuel(passage_through, 8);
}

/// In the model of the chain in `layer_order`, an identifier that the request
/// carries comes back unchanged on the response, and a request without one
/// gets the fresh one that the identifier generator supplied.
pub proof fn law_request_id_round_trip(
    body_len: nat,
    id: Option<Seq<char>>,
    fresh: Seq<char>,
    limit: nat,
    handler_status: u16,
)
    requires
        fresh.len() > 0,
    ensures
        id is Some ==> passage_through(
            layer_order(),
            body_len,
            id,
            fresh,
            limit,
            handler_status,
        ).request_id == id,
        id is None ==> passage_through(
            layer_order(),
            body_len,
            id,
            fresh,
            limit,
            handler_status,
        ).request_id == Some(fresh),
        id is None ==> passage_through(
            layer_order(),
            body_len,
            id,
            fresh,
            limit,
            handler_status,
        ).request_id->0.len() > 0,
{
    lemma_standard_passage(body_len, id, fresh, limit, handler_status);
}

/// In the model of the chain in `layer_order`, with `body_len` the declared
/// length of the body, a request whose body is over the limit never reaches
/// the handler: it is answered 413, and recorded as such.
pub proof fn law_oversized_rejected_before_handler(
    body_len: nat,
    id: Option<Seq<char>>,
    fresh: Seq<char>,
    limit: nat,
    handler_status: u16,
)
    requires
        body_len > limit,
    ensures
        ({
            let p = passage_through(layer_order(), body_len, id, fresh, limit, handler_status);
            &&& !p.handler_ran
            &&& p.status == 413
            &&& p.recorded == Some(413u16)
        }),
{
    lemma_standard_passage(body_len, id, fresh, limit, handler_status);
}

/// In the model of the chain in `layer_order`, with `body_len` the declared
/// length of the body, a request within the limit reaches the handler, and its
/// answer is what is sent and recorded.
pub proof fn law_within_limit_reaches_handler(
    body_len: nat,
    id: Option<Seq<char>>,
    fresh: Seq<char>,
    limit: nat,
    handler_status: u16,
)
    requires
        body_len <= limit,
    ensures
        ({
            let p = passage_through(layer_order(), body_len, id, fresh, limit, handler_status);
            &&& p.handler_ran
            &&& p.status == handler_status
            &&& p.recorded == Some(handler_status)
        }),
{
    lemma_standard_passage(body_len, id, fresh, limit, handler_status);
}

} // verus!
