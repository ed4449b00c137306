//! The broker: named queues behind a small request protocol.
//!
//! | method   | path             | does                                   |
//! |----------|------------------|----------------------------------------|
//! | `POST`   | `/new/<name>`    | creates the queue                      |
//! | `DELETE` | `/delete/<name>` | removes the queue and what it holds    |
//! | `GET`    | `/get/<name>`    | takes the oldest message off the queue |
//! | `POST`   | `/add/<name>`    | appends the body to the queue          |
//!
//! Method and path are matched by case. The name is all of the path behind the
//! prefix, further slashes included, and may be empty. Anything else is
//! answered with 404.

use crate::queue::{
    dequeued, enqueued, enqueued_all, head_or_empty, lemma_fifo_order, retrieved,
};
use crate::registry::Registry;
use crate::request::{
    body_bytes, lemma_parts_are_verbatim, parse_request, parsed, well_formed, Request, RequestView,
};
use crate::response::{wire, Response, ResponseView, Status};
use crate::text::{str_eq, strip_prefix};
use vstd::prelude::*;
use vstd::string::*;
use vstd::utf8::*;

verus! {

/// The port that a new server is set to listen on.
pub const DEFAULT_PORT: i32 = 8080;

/// The broker's state: its port and its queues.
pub struct Server {
    port: i32,
    queues: Registry,
}

impl View for Server {
    type V = Map<Seq<char>, Seq<Seq<char>>>;

    /// The waiting messages of each queue, oldest first, under the queue's name.
    closed spec fn view(&self) -> Map<Seq<char>, Seq<Seq<char>>> {
        self.queues@
    }
}

/// What a request leads to: the queues after it, and the answer.
pub ghost struct Outcome {
    pub queues: Map<Seq<char>, Seq<Seq<char>>>,
    pub response: ResponseView,
}

/// The explanation sent when a queue is to be created under a taken name.
pub open spec fn already_exists(name: Seq<char>) -> Seq<char> {
    "Queue '"@ + name + "' already exists"@
}

/// The explanation sent when a queue is to be removed that is not there.
pub open spec fn cannot_be_removed(name: Seq<char>) -> Seq<char> {
    "Queue '"@ + name + "' cannot be removed as it does not exist"@
}

/// `POST /new/<name>`.
pub open spec fn create_outcome(queues: Map<Seq<char>, Seq<Seq<char>>>, name: Seq<char>) -> Outcome {
    if queues.contains_key(name) {
        Outcome {
            queues,
            response: ResponseView { status: Status::BadRequest, body: already_exists(name) },
        }
    } else {
        Outcome {
            queues: queues.insert(name, Seq::empty()),
            response: ResponseView { status: Status::Success, body: Seq::empty() },
        }
    }
}

/// `DELETE /delete/<name>`.
pub open spec fn delete_outcome(queues: Map<Seq<char>, Seq<Seq<char>>>, name: Seq<char>) -> Outcome {
    if queues.contains_key(name) {
        Outcome {
            queues: queues.remove(name),
            response: ResponseView { status: Status::Success, body: Seq::empty() },
        }
    } else {
        Outcome {
            queues,
            response: ResponseView { status: Status::BadRequest, body: cannot_be_removed(name) },
        }
    }
}

/// `GET /get/<name>`.
pub open spec fn get_outcome(queues: Map<Seq<char>, Seq<Seq<char>>>, name: Seq<char>) -> Outcome {
    if queues.contains_key(name) {
        Outcome {
            queues: queues.insert(name, dequeued(queues[name])),
            response: ResponseView { status: Status::Success, body: head_or_empty(queues[name]) },
        }
    } else {
        Outcome { queues, response: ResponseView { status: Status::NotFound, body: Seq::empty() } }
    }
}

/// `POST /add/<name>` with the body `message`.
pub open spec fn add_outcome(
    queues: Map<Seq<char>, Seq<Seq<char>>>,
    name: Seq<char>,
    message: Seq<char>,
) -> Outcome {
    if queues.contains_key(name) {
        Outcome {
            queues: queues.insert(name, enqueued(queues[name], message)),
            response: ResponseView { status: Status::Success, body: Seq::empty() },
        }
    } else {
        Outcome { queues, response: ResponseView { status: Status::NotFound, body: Seq::empty() } }
    }
}

/// What `request` leads to on `queues`.
pub open spec fn respond(queues: Map<Seq<char>, Seq<Seq<char>>>, request: RequestView) -> Outcome {
    if request.method == "POST"@ && "/new/"@.is_prefix_of(request.path) {
        create_outcome(queues, request.path.skip("/new/"@.len() as int))
    } else if request.method == "DELETE"@ && "/delete/"@.is_prefix_of(request.path) {
        delete_outcome(queues, request.path.skip("/delete/"@.len() as int))
    } else if request.method == "GET"@ && "/get/"@.is_prefix_of(request.path) {
        get_outcome(queues, request.path.skip("/get/"@.len() as int))
    } else if request.method == "POST"@ && "/add/"@.is_prefix_of(request.path) {
        add_outcome(queues, request.path.skip("/add/"@.len() as int), request.body)
    } else {
        Outcome { queues, response: ResponseView { status: Status::NotFound, body: Seq::empty() } }
    }
}

/// What the bytes `raw` of one connection lead to: a request that cannot be
/// read changes nothing and is answered with 400.
pub open spec fn serve(queues: Map<Seq<char>, Seq<Seq<char>>>, raw: Seq<u8>) -> Outcome {
    if well_formed(raw) {
        respond(queues, parsed(raw))
    } else {
        Outcome { queues, response: ResponseView { status: Status::BadRequest, body: Seq::empty() } }
    }
}

/// Creates a server without queues, set to the default port.
pub fn new_server() -> (server: Server)
    ensures
        server@ == Map::<Seq<char>, Seq<Seq<char>>>::empty(),
        server.port() == DEFAULT_PORT,
{
    Server { port: DEFAULT_PORT, queues: Registry::new() }
}

/// `before`, `name` and `after` in a row.
fn explain(before: &str, name: &str, after: &str) -> (text: String)
    ensures
        text@ == before@ + name@ + after@,
{
    let mut text = String::from_str(before);
    text.append(name);
    text.append(after);
    text
}

impl Server {
    /// The port to listen on.
    pub closed spec fn spec_port(&self) -> i32 {
        self.port
    }

    /// The port to listen on.
    #[verifier::when_used_as_spec(spec_port)]
    pub fn port(&self) -> (port: i32)
        ensures
            port == self.spec_port(),
    {
        self.port
    }

    fn create_queue(&mut self, name: &str) -> (response: Response)
        ensures
            (Outcome { queues: final(self)@, response: response@ }) == create_outcome(
                old(self)@,
                name@,
            ),
    {
        match self.queues.create(name.to_owned()) {
            Ok(()) => Response::empty(Status::Success),
            Err(_) => Response {
                status: Status::BadRequest,
                body: explain("Queue '", name, "' already exists"),
            },
        }
    }

    fn delete_queue(&mut self, name: &str) -> (response: Response)
        ensures
            (Outcome { queues: final(self)@, response: response@ }) == delete_outcome(
                old(self)@,
                name@,
            ),
    {
        match self.queues.delete(name) {
            Ok(()) => Response::empty(Status::Success),
            Err(_) => Response {
                status: Status::BadRequest,
                body: explain("Queue '", name, "' cannot be removed as it does not exist"),
            },
        }
    }

    fn get_message(&mut self, name: &str) -> (response: Response)
        ensures
            (Outcome { queues: final(self)@, response: response@ }) == get_outcome(
                old(self)@,
                name@,
            ),
    {
        match self.queues.dequeue(name) {
            Ok(message) => Response { status: Status::Success, body: message },
            Err(_) => Response::empty(Status::NotFound),
        }
    }

    fn add_message(&mut self, name: &str, message: &str) -> (response: Response)
        ensures
            (Outcome { queues: final(self)@, response: response@ }) == add_outcome(
                old(self)@,
                name@,
                message@,
            ),
    {
        match self.queues.enqueue(name, message.to_owned()) {
            Ok(()) => Response::empty(Status::Success),
            Err(_) => Response::empty(Status::NotFound),
        }
    }

    /// Carries out the one operation that `request` asks for and says how it
    /// went.
    pub fn dispatch(&mut self, request: Request<'_>) -> (response: Response)
        ensures
            (Outcome { queues: final(self)@, response: response@ }) == respond(
                old(self)@,
                request@,
            ),
    {
        proof {
            reveal_strlit("/new/");
            reveal_strlit("/delete/");
            reveal_strlit("/get/");
            reveal_strlit("/add/");
        }
        if str_eq(request.method, "POST") {
            if let Some(name) = strip_prefix(request.path, "/new/") {
                return self.create_queue(name);
            }
        }
        if str_eq(request.method, "DELETE") {
            if let Some(name) = strip_prefix(request.path, "/delete/") {
                return self.delete_queue(name);
            }
        }
        if str_eq(request.method, "GET") {
            if let Some(name) = strip_prefix(request.path, "/get/") {
                return self.get_message(name);
            }
        }
        if str_eq(request.method, "POST") {
            if let Some(name) = strip_prefix(request.path, "/add/") {
                return self.add_message(name, request.body);
            }
        }
        Response::empty(Status::NotFound)
    }

    /// Serves one connection: reads the request out of `raw`, carries it out,
    /// and returns the bytes to send back.
    pub fn handle_request(&mut self, raw: &[u8]) -> (reply: Vec<u8>)
        ensures
            final(self)@ == serve(old(self)@, raw@).queues,
            reply@ == wire(serve(old(self)@, raw@).response),
    {
        let response = match parse_request(raw) {
            Ok(request) => self.dispatch(request),
            Err(_) => Response::empty(Status::BadRequest),
        };
        response.to_bytes()
    }
}

/// A request to create the queue called `name`.
pub open spec fn create_request(name: Seq<char>, body: Seq<char>) -> RequestView {
    RequestView { method: "POST"@, path: "/new/"@ + name, body }
}

/// A request to remove the queue called `name`.
pub open spec fn delete_request(name: Seq<char>, body: Seq<char>) -> RequestView {
    RequestView { method: "DELETE"@, path: "/delete/"@ + name, body }
}

/// A request for the oldest message of the queue called `name`.
pub open spec fn get_request(name: Seq<char>, body: Seq<char>) -> RequestView {
    RequestView { method: "GET"@, path: "/get/"@ + name, body }
}

/// A request to append `message` to the queue called `name`.
pub open spec fn add_request(name: Seq<char>, message: Seq<char>) -> RequestView {
    RequestView { method: "POST"@, path: "/add/"@ + name, body: message }
}

/// Each of the four routes leads to its operation on the queue whose name
/// stands behind the prefix, whatever that name is; the body matters to
/// `/add/` alone.
pub proof fn lemma_routes(queues: Map<Seq<char>, Seq<Seq<char>>>, name: Seq<char>, body: Seq<char>)
    ensures
        respond(queues, create_request(name, body)) == create_outcome(queues, name),
        respond(queues, delete_request(name, body)) == delete_outcome(queues, name),
        respond(queues, get_request(name, body)) == get_outcome(queues, name),
        respond(queues, add_request(name, body)) == add_outcome(queues, name, body),
{
    reveal_strlit("POST");
    reveal_strlit("DELETE");
    reveal_strlit("GET");
    reveal_strlit("/new/");
    reveal_strlit("/delete/");
    reveal_strlit("/get/");
    reveal_strlit("/add/");
    assert("POST"@.len() == 4 && "DELETE"@.len() == 6 && "GET"@.len() == 3);
    assert(("/new/"@ + name).skip(5) =~= name);
    assert(("/delete/"@ + name).skip(8) =~= name);
    assert(("/get/"@ + name).skip(5) =~= name);
    assert(("/add/"@ + name).skip(5) =~= name);
    assert(("/new/"@ + name).subrange(0, 5) =~= "/new/"@);
    assert(("/delete/"@ + name).subrange(0, 8) =~= "/delete/"@);
    assert(("/get/"@ + name).subrange(0, 5) =~= "/get/"@);
    assert(("/add/"@ + name).subrange(0, 5) =~= "/add/"@);
    assert(!"/new/"@.is_prefix_of("/add/"@ + name)) by {
        assert(("/add/"@ + name).subrange(0, 5)[1] == 'a');
    }
}

/// A request whose method is none of `POST`, `DELETE` and `GET` changes
/// nothing and is answered with 404 and no body.
pub proof fn lemma_unknown_method(queues: Map<Seq<char>, Seq<Seq<char>>>, request: RequestView)
    requires
        request.method != "POST"@,
        request.method != "DELETE"@,
        request.method != "GET"@,
    ensures
        respond(queues, request) == (Outcome {
            queues,
            response: ResponseView { status: Status::NotFound, body: Seq::empty() },
        }),
{
}

/// Creating a queue under a free name succeeds with 200 and no body, and adds
/// an empty queue of that name. Creating it once more is refused with 400 and
/// an explanation that holds the name, and changes nothing. Neither request
/// touches another queue.
pub proof fn lemma_create_then_duplicate(
    queues: Map<Seq<char>, Seq<Seq<char>>>,
    name: Seq<char>,
    body: Seq<char>,
)
    requires
        !queues.contains_key(name),
    ensures
        ({
            let first = respond(queues, create_request(name, body));
            let second = respond(first.queues, create_request(name, body));
            &&& first.response == (ResponseView { status: Status::Success, body: Seq::empty() })
            &&& first.queues == queues.insert(name, Seq::empty())
            &&& second.response == (ResponseView {
                status: Status::BadRequest,
                body: already_exists(name),
            })
            &&& second.queues == first.queues
            &&& forall|other: Seq<char>|
                other != name ==> first.queues.contains_key(other) == queues.contains_key(other)
                    && first.queues[other] == queues[other]
        }),
        ({
            let at = "Queue '"@.len() as int;
            already_exists(name).subrange(at, at + name.len()) == name
        }),
{
    lemma_routes(queues, name, body);
    lemma_routes(queues.insert(name, Seq::empty()), name, body);
    let at = "Queue '"@.len() as int;
    assert(already_exists(name).subrange(at, at + name.len()) =~= name);
}

/// Removing a queue that does not exist is refused with 400 and an
/// explanation that names it, and changes nothing.
pub proof fn lemma_delete_missing(
    queues: Map<Seq<char>, Seq<Seq<char>>>,
    name: Seq<char>,
    body: Seq<char>,
)
    requires
        !queues.contains_key(name),
    ensures
        respond(queues, delete_request(name, body)) == (Outcome {
            queues,
            response: ResponseView { status: Status::BadRequest, body: cannot_be_removed(name) },
        }),
{
    lemma_routes(queues, name, body);
}

/// Taking from a queue that does not exist, and adding to one, is answered
/// with 404 and no body, and changes nothing.
pub proof fn lemma_unknown_queue(
    queues: Map<Seq<char>, Seq<Seq<char>>>,
    name: Seq<char>,
    body: Seq<char>,
)
    requires
        !queues.contains_key(name),
    ensures
        respond(queues, get_request(name, body)) == (Outcome {
            queues,
            response: ResponseView { status: Status::NotFound, body: Seq::empty() },
        }),
        respond(queues, add_request(name, body)) == (Outcome {
            queues,
            response: ResponseView { status: Status::NotFound, body: Seq::empty() },
        }),
{
    lemma_routes(queues, name, body);
}

/// Taking from a queue that was just created, and never added to, is
/// answered with 200 and the empty message, and leaves the queue as it is.
pub proof fn lemma_fresh_queue_gives_empty_message(
    queues: Map<Seq<char>, Seq<Seq<char>>>,
    name: Seq<char>,
    body: Seq<char>,
)
    requires
        !queues.contains_key(name),
    ensures
        ({
            let created = respond(queues, create_request(name, body)).queues;
            respond(created, get_request(name, body)) == (Outcome {
                queues: created,
                response: ResponseView { status: Status::Success, body: Seq::empty() },
            })
        }),
{
    let created = queues.insert(name, Seq::empty());
    lemma_routes(queues, name, body);
    lemma_routes(created, name, body);
    assert(created.insert(name, dequeued(created[name])) =~= created);
}

/// A message added to an empty queue comes back from the next retrieval
/// exactly as it was sent, and the queue is empty again.
pub proof fn lemma_round_trip(
    queues: Map<Seq<char>, Seq<Seq<char>>>,
    name: Seq<char>,
    message: Seq<char>,
    body: Seq<char>,
)
    requires
        queues.contains_key(name),
        queues[name].len() == 0,
    ensures
        ({
            let added = respond(queues, add_request(name, message));
            let got = respond(added.queues, get_request(name, body));
            &&& added.response == (ResponseView { status: Status::Success, body: Seq::empty() })
            &&& got.response == (ResponseView { status: Status::Success, body: message })
            &&& got.queues == queues
        }),
{
    let added = queues.insert(name, enqueued(queues[name], message));
    lemma_routes(queues, name, message);
    lemma_routes(added, name, body);
    assert(dequeued(added[name]) =~= queues[name]);
    assert(added.insert(name, dequeued(added[name])) =~= queues);
}

/// On the wire too: the body of an `/add/` request to an empty queue is the
/// body of the answer to the next `/get/` request, byte for byte, behind the
/// head of a 200.
pub proof fn lemma_round_trip_on_the_wire(
    queues: Map<Seq<char>, Seq<Seq<char>>>,
    name: Seq<char>,
    add: Seq<u8>,
    get: Seq<u8>,
)
    requires
        queues.contains_key(name),
        queues[name].len() == 0,
        well_formed(add),
        parsed(add).method == "POST"@,
        parsed(add).path == "/add/"@ + name,
        well_formed(get),
        parsed(get).method == "GET"@,
        parsed(get).path == "/get/"@ + name,
    ensures
        ({
            let added = serve(queues, add);
            let got = serve(added.queues, get);
            &&& wire(added.response) == encode_utf8(Status::Success.spec_head())
            &&& wire(got.response) == encode_utf8(Status::Success.spec_head()) + body_bytes(add)
            &&& got.queues == queues
        }),
{
    let message = parsed(add).body;
    assert(parsed(add) == add_request(name, message));
    assert(parsed(get) == get_request(name, parsed(get).body));
    lemma_round_trip(queues, name, message, parsed(get).body);
    lemma_parts_are_verbatim(add);
    assert(encode_utf8(Seq::<char>::empty()) =~= Seq::<u8>::empty());
    assert(encode_utf8(Status::Success.spec_head()) + Seq::<u8>::empty() =~= encode_utf8(
        Status::Success.spec_head(),
    ));
}

/// The queues after each of `messages` was added to the queue called `name`
/// by a request of its own, in their order.
pub open spec fn after_adding(
    queues: Map<Seq<char>, Seq<Seq<char>>>,
    name: Seq<char>,
    messages: Seq<Seq<char>>,
) -> Map<Seq<char>, Seq<Seq<char>>>
    decreases messages.len(),
{
    if messages.len() == 0 {
        queues
    } else {
        respond(
            after_adding(queues, name, messages.drop_last()),
            add_request(name, messages.last()),
        ).queues
    }
}

/// The bodies of the answers to `count` requests in a row for a message of
/// the queue called `name`, in the order of the requests.
pub open spec fn taken(queues: Map<Seq<char>, Seq<Seq<char>>>, name: Seq<char>, count: nat) -> Seq<
    Seq<char>,
>
    decreases count,
{
    if count == 0 {
        Seq::empty()
    } else {
        let outcome = respond(queues, get_request(name, Seq::empty()));
        seq![outcome.response.body] + taken(outcome.queues, name, (count - 1) as nat)
    }
}

proof fn lemma_after_adding(
    queues: Map<Seq<char>, Seq<Seq<char>>>,
    name: Seq<char>,
    messages: Seq<Seq<char>>,
)
    requires
        queues.contains_key(name),
    ensures
        after_adding(queues, name, messages) == queues.insert(
            name,
            enqueued_all(queues[name], messages),
        ),
    decreases messages.len(),
{
    if messages.len() == 0 {
        assert(queues.insert(name, queues[name]) =~= queues);
    } else {
        let before = after_adding(queues, name, messages.drop_last());
        lemma_after_adding(queues, name, messages.drop_last());
        lemma_routes(before, name, messages.last());
        assert(before.insert(name, enqueued(before[name], messages.last())) =~= queues.insert(
            name,
            enqueued_all(queues[name], messages),
        ));
    }
}

proof fn lemma_taken(queues: Map<Seq<char>, Seq<Seq<char>>>, name: Seq<char>, count: nat)
    requires
        queues.contains_key(name),
    ensures
        taken(queues, name, count) == retrieved(queues[name], count),
    decreases count,
{
    if count > 0 {
        lemma_routes(queues, name, Seq::empty());
        lemma_taken(queues.insert(name, dequeued(queues[name])), name, (count - 1) as nat);
    }
}

/// First in, first out, request by request: after any messages were added to
/// a queue with no retrieval in between, as many retrievals as the queue then
/// holds messages are answered with what waited before and then with exactly
/// those messages, in the order in which they were added.
pub proof fn lemma_fifo_through_requests(
    queues: Map<Seq<char>, Seq<Seq<char>>>,
    name: Seq<char>,
    messages: Seq<Seq<char>>,
)
    requires
        queues.contains_key(name),
    ensures
        taken(after_adding(queues, name, messages), name, queues[name].len() + messages.len())
            == queues[name] + messages,
        queues[name].len() == 0 ==> taken(
            after_adding(queues, name, messages),
            name,
            messages.len(),
        ) == messages,
{
    lemma_after_adding(queues, name, messages);
    lemma_taken(after_adding(queues, name, messages), name, queues[name].len() + messages.len());
    lemma_fifo_order(queues[name], messages);
}

} // verus!
