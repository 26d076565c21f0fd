//! The arguments of requests: which ones a request must have, and what stands for those
//! that it leaves out.
use vstd::prelude::*;
use crate::cli::{law_texts_of_a_list, list_texts, texts_among};
use crate::decimal::digit_run;
use crate::json::{
    decimal_number, float_number, is_short_decimal, json_trees, number_from, unsigned_number, Json,
    JsonTree,
};
use crate::order::texts;
use crate::ratsnest::filter_view;
use crate::text::{lemma_occurs_between, occurs, quoted};

verus! {

// ─── Parameters ───────────────────────────────────────────────────────────────

/// A parameter of a request.
#[derive(Debug, Clone, Copy, PartialEq)]
pub enum Param {
    /// A path that must be given.
    Path(&'static str),
    /// A text that must be given.
    Text(&'static str),
    /// A number that must be given.
    Number(&'static str),
    /// A text, and what stands for it where it is left out.
    TextOr(&'static str, &'static str),
    /// A number, and the decimal that stands for it where it is left out.
    NumberOr(&'static str, &'static str),
    /// A count, and what stands for it where it is left out.
    CountOr(&'static str, u64),
    /// A truth value, and what stands for it where it is left out.
    TruthOr(&'static str, bool),
}

/// What a parameter is.
pub enum Slot {
    Path(Seq<char>),
    Text(Seq<char>),
    Number(Seq<char>),
    TextOr(Seq<char>, Seq<char>),
    NumberOr(Seq<char>, Seq<char>),
    CountOr(Seq<char>, u64),
    TruthOr(Seq<char>, bool),
}

impl View for Param {
    type V = Slot;

    open spec fn view(&self) -> Slot {
        match self {
            Param::Path(n) => Slot::Path(n@),
            Param::Text(n) => Slot::Text(n@),
            Param::Number(n) => Slot::Number(n@),
            Param::TextOr(n, d) => Slot::TextOr(n@, d@),
            Param::NumberOr(n, d) => Slot::NumberOr(n@, d@),
            Param::CountOr(n, d) => Slot::CountOr(n@, *d),
            Param::TruthOr(n, d) => Slot::TruthOr(n@, *d),
        }
    }
}

/// The parameters that a list of them stands for.
pub open spec fn slots(v: Seq<Param>) -> Seq<Slot> {
    Seq::new(v.len(), |i: int| v[i]@)
}

/// Are the decimals that stand for numbers short ones?
pub open spec fn is_sound(params: Seq<Slot>) -> bool {
    forall|i: int|
        0 <= i < params.len() ==> ((#[trigger] params[i]) matches Slot::NumberOr(_, d)
            ==> is_short_decimal(d))
}

/// An argument of a request.
#[derive(Debug, PartialEq)]
pub enum Argument {
    Text(String),
    Number(serde_json::Number),
    Count(u64),
    Truth(bool),
}

/// What an argument is.
pub enum Given {
    Text(Seq<char>),
    Number(serde_json::Number),
    Count(u64),
    Truth(bool),
}

impl View for Argument {
    type V = Given;

    open spec fn view(&self) -> Given {
        match self {
            Argument::Text(t) => Given::Text(t@),
            Argument::Number(n) => Given::Number(*n),
            Argument::Count(n) => Given::Count(*n),
            Argument::Truth(b) => Given::Truth(*b),
        }
    }
}

/// The arguments that a list of them stands for.
pub open spec fn givens(v: Seq<Argument>) -> Seq<Given> {
    Seq::new(v.len(), |i: int| v[i]@)
}

/// An argument that a request must have and does not.
#[derive(Debug, Clone, PartialEq)]
pub enum ArgumentError {
    /// No path is given.
    Path(String),
    /// No text is given.
    Text(String),
    /// No number is given.
    Number(String),
    /// No list of corners is given.
    Points,
    /// Fewer than three corners are given.
    TooFewPoints,
}

/// What an error is.
pub enum Missing {
    Path(Seq<char>),
    Text(Seq<char>),
    Number(Seq<char>),
    Points,
    TooFewPoints,
}

impl View for ArgumentError {
    type V = Missing;

    open spec fn view(&self) -> Missing {
        match self {
            ArgumentError::Path(n) => Missing::Path(n@),
            ArgumentError::Text(n) => Missing::Text(n@),
            ArgumentError::Number(n) => Missing::Number(n@),
            ArgumentError::Points => Missing::Points,
            ArgumentError::TooFewPoints => Missing::TooFewPoints,
        }
    }
}

impl Missing {
    /// What the error says.
    pub open spec fn text(self) -> Seq<char> {
        match self {
            Missing::Path(n) => "Missing '"@ + n + "' path"@,
            Missing::Text(n) => "Missing '"@ + n + "' text"@,
            Missing::Number(n) => "Missing '"@ + n + "' number"@,
            Missing::Points => "Missing 'points' array"@,
            Missing::TooFewPoints => "Zone requires at least 3 points"@,
        }
    }
}

impl ArgumentError {
    /// The error in words.
    pub fn message(&self) -> (r: String)
        ensures
            r@ == self@.text(),
    {
        match self {
            ArgumentError::Path(n) => quoted("Missing '", n.as_str(), "' path"),
            ArgumentError::Text(n) => quoted("Missing '", n.as_str(), "' text"),
            ArgumentError::Number(n) => quoted("Missing '", n.as_str(), "' number"),
            ArgumentError::Points => "Missing 'points' array".to_owned(),
            ArgumentError::TooFewPoints => "Zone requires at least 3 points".to_owned(),
        }
    }
}

// ─── Reading arguments ────────────────────────────────────────────────────────

/// The argument for a parameter. A number is read as a float.
pub open spec fn given_for(args: JsonTree, param: Slot) -> Result<Given, Missing> {
    match param {
        Slot::Path(name) => match args.get_text(name) {
            Some(t) => Ok(Given::Text(t)),
            None => Err(Missing::Path(name)),
        },
        Slot::Text(name) => match args.get_text(name) {
            Some(t) => Ok(Given::Text(t)),
            None => Err(Missing::Text(name)),
        },
        Slot::Number(name) => match args.get_float(name) {
            Some(n) => Ok(Given::Number(n)),
            None => Err(Missing::Number(name)),
        },
        Slot::TextOr(name, default) => match args.get_text(name) {
            Some(t) => Ok(Given::Text(t)),
            None => Ok(Given::Text(default)),
        },
        Slot::NumberOr(name, default) => match args.get_float(name) {
            Some(n) => Ok(Given::Number(n)),
            None => Ok(Given::Number(decimal_number(default))),
        },
        Slot::CountOr(name, default) => match args.get_unsigned(name) {
            Some(n) => Ok(Given::Count(n)),
            None => Ok(Given::Count(default)),
        },
        Slot::TruthOr(name, default) => match args.get(name) {
            Some(JsonTree::Bool(b)) => Ok(Given::Truth(b)),
            _ => Ok(Given::Truth(default)),
        },
    }
}

/// The arguments for a list of parameters. The first that is missing is the error.
pub open spec fn givens_for(args: JsonTree, params: Seq<Slot>) -> Result<Seq<Given>, Missing>
    decreases params.len(),
{
    if params.len() == 0 {
        Ok(Seq::empty())
    } else {
        match givens_for(args, params.drop_last()) {
            Err(e) => Err(e),
            Ok(before) => match given_for(args, params.last()) {
                Ok(g) => Ok(before.push(g)),
                Err(e) => Err(e),
            },
        }
    }
}

fn read_argument(args: &Json, param: &Param) -> (r: Result<Argument, ArgumentError>)
    requires
        param@ matches Slot::NumberOr(_, d) ==> is_short_decimal(d),
    ensures
        match r {
            Ok(a) => given_for(args@, param@) == Ok::<Given, Missing>(a@),
            Err(e) => given_for(args@, param@) == Err::<Given, Missing>(e@),
        },
{
    match param {
        Param::Path(name) => match args.get_str(name) {
            Some(t) => Ok(Argument::Text(t.to_owned())),
            None => Err(ArgumentError::Path((*name).to_owned())),
        },
        Param::Text(name) => match args.get_str(name) {
            Some(t) => Ok(Argument::Text(t.to_owned())),
            None => Err(ArgumentError::Text((*name).to_owned())),
        },
        Param::Number(name) => match args.get_float(name) {
            Some(n) => Ok(Argument::Number(n)),
            None => Err(ArgumentError::Number((*name).to_owned())),
        },
        Param::TextOr(name, default) => match args.get_str(name) {
            Some(t) => Ok(Argument::Text(t.to_owned())),
            None => Ok(Argument::Text((*default).to_owned())),
        },
        Param::NumberOr(name, default) => match args.get_float(name) {
            Some(n) => Ok(Argument::Number(n)),
            None => Ok(Argument::Number(number_from(default))),
        },
        Param::CountOr(name, default) => match args.get_unsigned(name) {
            Some(n) => Ok(Argument::Count(n)),
            None => Ok(Argument::Count(*default)),
        },
        Param::TruthOr(name, default) => match args.get(name) {
            Some(Json::Bool(b)) => Ok(Argument::Truth(*b)),
            _ => Ok(Argument::Truth(*default)),
        },
    }
}

/// Reads the arguments of a request. The first that is missing is the error.
pub fn read_arguments(args: &Json, params: &Vec<Param>) -> (r: Result<
    Vec<Argument>,
    ArgumentError,
>)
    requires
        is_sound(slots(params@)),
    ensures
        match r {
            Ok(v) => givens_for(args@, slots(params@)) == Ok::<Seq<Given>, Missing>(givens(v@)),
            Err(e) => givens_for(args@, slots(params@)) == Err::<Seq<Given>, Missing>(e@),
        },
{
    let ghost all = slots(params@);
    let mut out: Vec<Argument> = Vec::new();
    assert(givens(out@) =~= Seq::<Given>::empty());
    let mut i: usize = 0;
    while i < params.len()
        invariant
            i <= params@.len(),
            all == slots(params@),
            is_sound(all),
            givens_for(args@, all.take(i as int)) == Ok::<Seq<Given>, Missing>(givens(out@)),
        decreases params@.len() - i,
    {
        proof {
            assert(all.take(i + 1).drop_last() =~= all.take(i as int));
            assert(all.take(i + 1).last() == all[i as int]);
            assert(all[i as int] == params@[i as int]@);
        }
        match read_argument(args, &params[i]) {
            Ok(a) => {
                assert(givens(out@.push(a)) =~= givens(out@).push(a@));
                out.push(a);
            },
            Err(e) => {
                proof {
                    lemma_first_error(args@, all, i + 1);
                }
                return Err(e);
            },
        }
        i = i + 1;
    }
    assert(all.take(params@.len() as int) =~= all);
    Ok(out)
}

proof fn lemma_first_error(args: JsonTree, params: Seq<Slot>, n: int)
    requires
        0 <= n <= params.len(),
        givens_for(args, params.take(n)) is Err,
    ensures
        givens_for(args, params) == givens_for(args, params.take(n)),
    decreases params.len() - n,
{
    if n == params.len() {
        assert(params.take(n) =~= params);
    } else {
        assert(params.take(n + 1).drop_last() =~= params.take(n));
        lemma_first_error(args, params, n + 1);
    }
}

// ─── Lists ────────────────────────────────────────────────────────────────────

/// The nets to which a request is confined, where it names any.
pub open spec fn net_filter_of(args: JsonTree) -> Option<Seq<Seq<char>>> {
    match args.get_items("net_filter"@) {
        Some(items) => Some(texts_among(items)),
        None => None,
    }
}

/// The nets to which a request is confined, where it names any.
pub fn net_filter(args: &Json) -> (r: Option<Vec<String>>)
    ensures
        filter_view(r) == net_filter_of(args@),
{
    match args.get_array("net_filter") {
        Some(items) => Some(list_texts(items)),
        None => None,
    }
}

/// The components that a request lists.
pub open spec fn references_of(args: JsonTree) -> Seq<Seq<char>> {
    match args.get_items("references"@) {
        Some(items) => texts_among(items),
        None => Seq::empty(),
    }
}

/// The components that a request lists.
pub fn references(args: &Json) -> (r: Vec<String>)
    ensures
        texts(r@) == references_of(args@),
{
    match args.get_array("references") {
        Some(items) => list_texts(items),
        None => {
            let r: Vec<String> = Vec::new();
            assert(texts(r@) =~= Seq::<Seq<char>>::empty());
            r
        },
    }
}

/// The points among a list of JSON values: those with two numbers, in order.
pub open spec fn points_among(items: Seq<JsonTree>) -> Seq<(serde_json::Number, serde_json::Number)>
    decreases items.len(),
{
    if items.len() == 0 {
        Seq::empty()
    } else {
        let before = points_among(items.drop_last());
        match (items.last().get_float("x"@), items.last().get_float("y"@)) {
            (Some(x), Some(y)) => before.push((x, y)),
            _ => before,
        }
    }
}

/// The corners of a zone: at least three of them.
pub open spec fn zone_points_of(args: JsonTree) -> Result<
    Seq<(serde_json::Number, serde_json::Number)>,
    Missing,
> {
    match args.get_items("points"@) {
        Some(items) => if points_among(items).len() < 3 {
            Err(Missing::TooFewPoints)
        } else {
            Ok(points_among(items))
        },
        None => Err(Missing::Points),
    }
}

/// The corners of a zone: at least three of them.
pub fn zone_points(args: &Json) -> (r: Result<
    Vec<(serde_json::Number, serde_json::Number)>,
    ArgumentError,
>)
    ensures
        match r {
            Ok(v) => zone_points_of(args@) == Ok::<
                Seq<(serde_json::Number, serde_json::Number)>,
                Missing,
            >(v@),
            Err(e) => zone_points_of(args@) == Err::<
                Seq<(serde_json::Number, serde_json::Number)>,
                Missing,
            >(e@),
        },
{
    let items = match args.get_array("points") {
        Some(items) => items,
        None => {
            return Err(ArgumentError::Points);
        },
    };
    let ghost all = json_trees(items@);
    let mut out: Vec<(serde_json::Number, serde_json::Number)> = Vec::new();
    let mut i: usize = 0;
    while i < items.len()
        invariant
            i <= items@.len(),
            all == json_trees(items@),
            out@ == points_among(all.take(i as int)),
        decreases items@.len() - i,
    {
        let p = &items[i];
        proof {
            assert(all.take(i + 1).drop_last() =~= all.take(i as int));
            assert(all.take(i + 1).last() == p@);
        }
        if let (Some(x), Some(y)) = (p.get_float("x"), p.get_float("y")) {
            out.push((x, y));
        }
        i = i + 1;
    }
    assert(all.take(items@.len() as int) =~= all);
    if out.len() < 3 {
        return Err(ArgumentError::TooFewPoints);
    }
    Ok(out)
}

// ─── The parameters of each request ───────────────────────────────────────────

proof fn lemma_default_numbers()
    ensures
        is_short_decimal("0"@),
        is_short_decimal("0.1"@),
        is_short_decimal("0.2"@),
        is_short_decimal("0.4"@),
        is_short_decimal("0.8"@),
        is_short_decimal("0.25"@),
{
    reveal_strlit("0");
    reveal_strlit("0.1");
    reveal_strlit("0.2");
    reveal_strlit("0.4");
    reveal_strlit("0.8");
    reveal_strlit("0.25");
    reveal_with_fuel(digit_run, 5);
}

/// The parameters of a request to add a net.
pub fn add_net_params() -> (r: Vec<Param>)
    ensures
        slots(r@) == seq![
            Slot::Path("board"@),
            Slot::Text("net_name"@),
        ],
        is_sound(slots(r@)),
{
    let r: Vec<Param> = vec![
        Param::Path("board"),
        Param::Text("net_name"),
    ];
    proof {
        lemma_default_numbers();
        assert(slots(r@) =~= seq![
            Slot::Path("board"@),
            Slot::Text("net_name"@),
        ]);
    }
    r
}

/// The parameters of a request to route a trace.
pub fn route_trace_params() -> (r: Vec<Param>)
    ensures
        slots(r@) == seq![
            Slot::Text("net_name"@),
            Slot::Text("layer"@),
            Slot::Number("x1"@),
            Slot::Number("y1"@),
            Slot::Number("x2"@),
            Slot::Number("y2"@),
            Slot::NumberOr("width"@, "0.25"@),
        ],
        is_sound(slots(r@)),
{
    let r: Vec<Param> = vec![
        Param::Text("net_name"),
        Param::Text("layer"),
        Param::Number("x1"),
        Param::Number("y1"),
        Param::Number("x2"),
        Param::Number("y2"),
        Param::NumberOr("width", "0.25"),
    ];
    proof {
        lemma_default_numbers();
        assert(slots(r@) =~= seq![
            Slot::Text("net_name"@),
            Slot::Text("layer"@),
            Slot::Number("x1"@),
            Slot::Number("y1"@),
            Slot::Number("x2"@),
            Slot::Number("y2"@),
            Slot::NumberOr("width"@, "0.25"@),
        ]);
    }
    r
}

/// The parameters of a request to route between two pads.
pub fn route_pad_to_pad_params() -> (r: Vec<Param>)
    ensures
        slots(r@) == seq![
            Slot::Path("board"@),
            Slot::Text("net_name"@),
            Slot::Text("ref1"@),
            Slot::Text("pad1"@),
            Slot::Text("ref2"@),
            Slot::Text("pad2"@),
            Slot::TextOr("layer"@, "F.Cu"@),
            Slot::NumberOr("width"@, "0.25"@),
        ],
        is_sound(slots(r@)),
{
    let r: Vec<Param> = vec![
        Param::Path("board"),
        Param::Text("net_name"),
        Param::Text("ref1"),
        Param::Text("pad1"),
        Param::Text("ref2"),
        Param::Text("pad2"),
        Param::TextOr("layer", "F.Cu"),
        Param::NumberOr("width", "0.25"),
    ];
    proof {
        lemma_default_numbers();
        assert(slots(r@) =~= seq![
            Slot::Path("board"@),
            Slot::Text("net_name"@),
            Slot::Text("ref1"@),
            Slot::Text("pad1"@),
            Slot::Text("ref2"@),
            Slot::Text("pad2"@),
            Slot::TextOr("layer"@, "F.Cu"@),
            Slot::NumberOr("width"@, "0.25"@),
        ]);
    }
    r
}

/// The parameters of a request to add a via.
pub fn add_via_params() -> (r: Vec<Param>)
    ensures
        slots(r@) == seq![
            Slot::Text("net_name"@),
            Slot::Number("x"@),
            Slot::Number("y"@),
            Slot::NumberOr("drill"@, "0.4"@),
            Slot::NumberOr("pad_size"@, "0.8"@),
        ],
        is_sound(slots(r@)),
{
    let r: Vec<Param> = vec![
        Param::Text("net_name"),
        Param::Number("x"),
        Param::Number("y"),
        Param::NumberOr("drill", "0.4"),
        Param::NumberOr("pad_size", "0.8"),
    ];
    proof {
        lemma_default_numbers();
        assert(slots(r@) =~= seq![
            Slot::Text("net_name"@),
            Slot::Number("x"@),
            Slot::Number("y"@),
            Slot::NumberOr("drill"@, "0.4"@),
            Slot::NumberOr("pad_size"@, "0.8"@),
        ]);
    }
    r
}

/// The parameters of a request to add a copper zone; its corners are listed apart.
pub fn add_copper_pour_params() -> (r: Vec<Param>)
    ensures
        slots(r@) == seq![
            Slot::Path("board"@),
            Slot::Text("net_name"@),
            Slot::Text("layer"@),
            Slot::NumberOr("clearance"@, "0.2"@),
            Slot::NumberOr("min_width"@, "0.25"@),
        ],
        is_sound(slots(r@)),
{
    let r: Vec<Param> = vec![
        Param::Path("board"),
        Param::Text("net_name"),
        Param::Text("layer"),
        Param::NumberOr("clearance", "0.2"),
        Param::NumberOr("min_width", "0.25"),
    ];
    proof {
        lemma_default_numbers();
        assert(slots(r@) =~= seq![
            Slot::Path("board"@),
            Slot::Text("net_name"@),
            Slot::Text("layer"@),
            Slot::NumberOr("clearance"@, "0.2"@),
            Slot::NumberOr("min_width"@, "0.25"@),
        ]);
    }
    r
}

/// The parameters of a request to delete a trace.
pub fn delete_trace_params() -> (r: Vec<Param>)
    ensures
        slots(r@) == seq![
            Slot::Text("uuid"@),
        ],
        is_sound(slots(r@)),
{
    let r: Vec<Param> = vec![
        Param::Text("uuid"),
    ];
    proof {
        lemma_default_numbers();
        assert(slots(r@) =~= seq![
            Slot::Text("uuid"@),
        ]);
    }
    r
}

/// The parameters of a request to modify a trace.
pub fn modify_trace_params() -> (r: Vec<Param>)
    ensures
        slots(r@) == seq![
            Slot::Text("uuid"@),
            Slot::Text("net_name"@),
            Slot::Text("layer"@),
            Slot::Number("x1"@),
            Slot::Number("y1"@),
            Slot::Number("x2"@),
            Slot::Number("y2"@),
            Slot::NumberOr("width"@, "0.25"@),
        ],
        is_sound(slots(r@)),
{
    let r: Vec<Param> = vec![
        Param::Text("uuid"),
        Param::Text("net_name"),
        Param::Text("layer"),
        Param::Number("x1"),
        Param::Number("y1"),
        Param::Number("x2"),
        Param::Number("y2"),
        Param::NumberOr("width", "0.25"),
    ];
    proof {
        lemma_default_numbers();
        assert(slots(r@) =~= seq![
            Slot::Text("uuid"@),
            Slot::Text("net_name"@),
            Slot::Text("layer"@),
            Slot::Number("x1"@),
            Slot::Number("y1"@),
            Slot::Number("x2"@),
            Slot::Number("y2"@),
            Slot::NumberOr("width"@, "0.25"@),
        ]);
    }
    r
}

/// The parameters of a request to create a netclass. The sizes are those of a new one.
pub fn create_netclass_params() -> (r: Vec<Param>)
    ensures
        slots(r@) == seq![
            Slot::Path("board"@),
            Slot::Text("name"@),
            Slot::NumberOr("clearance"@, "0.2"@),
            Slot::NumberOr("trace_width"@, "0.25"@),
            Slot::NumberOr("via_drill"@, "0.4"@),
            Slot::NumberOr("via_diameter"@, "0.8"@),
        ],
        is_sound(slots(r@)),
{
    let r: Vec<Param> = vec![
        Param::Path("board"),
        Param::Text("name"),
        Param::NumberOr("clearance", "0.2"),
        Param::NumberOr("trace_width", "0.25"),
        Param::NumberOr("via_drill", "0.4"),
        Param::NumberOr("via_diameter", "0.8"),
    ];
    proof {
        lemma_default_numbers();
        assert(slots(r@) =~= seq![
            Slot::Path("board"@),
            Slot::Text("name"@),
            Slot::NumberOr("clearance"@, "0.2"@),
            Slot::NumberOr("trace_width"@, "0.25"@),
            Slot::NumberOr("via_drill"@, "0.4"@),
            Slot::NumberOr("via_diameter"@, "0.8"@),
        ]);
    }
    r
}

/// The parameters of a request to assign a net to a netclass.
pub fn assign_net_to_class_params() -> (r: Vec<Param>)
    ensures
        slots(r@) == seq![
            Slot::Path("board"@),
            Slot::Text("net_name"@),
            Slot::Text("netclass"@),
        ],
        is_sound(slots(r@)),
{
    let r: Vec<Param> = vec![
        Param::Path("board"),
        Param::Text("net_name"),
        Param::Text("netclass"),
    ];
    proof {
        lemma_default_numbers();
        assert(slots(r@) =~= seq![
            Slot::Path("board"@),
            Slot::Text("net_name"@),
            Slot::Text("netclass"@),
        ]);
    }
    r
}

/// The parameters of a request to route a differential pair.
pub fn route_differential_pair_params() -> (r: Vec<Param>)
    ensures
        slots(r@) == seq![
            Slot::Text("net_pos"@),
            Slot::Text("net_neg"@),
            Slot::TextOr("layer"@, "F.Cu"@),
            Slot::Number("x1"@),
            Slot::Number("y1"@),
            Slot::Number("x2"@),
            Slot::Number("y2"@),
            Slot::NumberOr("width"@, "0.1"@),
            Slot::NumberOr("gap"@, "0.1"@),
        ],
        is_sound(slots(r@)),
{
    let r: Vec<Param> = vec![
        Param::Text("net_pos"),
        Param::Text("net_neg"),
        Param::TextOr("layer", "F.Cu"),
        Param::Number("x1"),
        Param::Number("y1"),
        Param::Number("x2"),
        Param::Number("y2"),
        Param::NumberOr("width", "0.1"),
        Param::NumberOr("gap", "0.1"),
    ];
    proof {
        lemma_default_numbers();
        assert(slots(r@) =~= seq![
            Slot::Text("net_pos"@),
            Slot::Text("net_neg"@),
            Slot::TextOr("layer"@, "F.Cu"@),
            Slot::Number("x1"@),
            Slot::Number("y1"@),
            Slot::Number("x2"@),
            Slot::Number("y2"@),
            Slot::NumberOr("width"@, "0.1"@),
            Slot::NumberOr("gap"@, "0.1"@),
        ]);
    }
    r
}

/// The parameters of a request to list missing connections; its filter is read apart.
pub fn get_unrouted_connections_params() -> (r: Vec<Param>)
    ensures
        slots(r@) == seq![
            Slot::Path("board"@),
            Slot::TruthOr("refill_zones"@, true),
        ],
        is_sound(slots(r@)),
{
    let r: Vec<Param> = vec![
        Param::Path("board"),
        Param::TruthOr("refill_zones", true),
    ];
    proof {
        lemma_default_numbers();
        assert(slots(r@) =~= seq![
            Slot::Path("board"@),
            Slot::TruthOr("refill_zones"@, true),
        ]);
    }
    r
}

/// The parameters of a request to place a component.
pub fn place_component_params() -> (r: Vec<Param>)
    ensures
        slots(r@) == seq![
            Slot::Text("footprint"@),
            Slot::Number("x"@),
            Slot::Number("y"@),
            Slot::NumberOr("rotation"@, "0"@),
            Slot::TextOr("layer"@, "F.Cu"@),
        ],
        is_sound(slots(r@)),
{
    let r: Vec<Param> = vec![
        Param::Text("footprint"),
        Param::Number("x"),
        Param::Number("y"),
        Param::NumberOr("rotation", "0"),
        Param::TextOr("layer", "F.Cu"),
    ];
    proof {
        lemma_default_numbers();
        assert(slots(r@) =~= seq![
            Slot::Text("footprint"@),
            Slot::Number("x"@),
            Slot::Number("y"@),
            Slot::NumberOr("rotation"@, "0"@),
            Slot::TextOr("layer"@, "F.Cu"@),
        ]);
    }
    r
}

/// The parameters of a request to move a component.
pub fn move_component_params() -> (r: Vec<Param>)
    ensures
        slots(r@) == seq![
            Slot::Text("reference"@),
            Slot::Number("x"@),
            Slot::Number("y"@),
        ],
        is_sound(slots(r@)),
{
    let r: Vec<Param> = vec![
        Param::Text("reference"),
        Param::Number("x"),
        Param::Number("y"),
    ];
    proof {
        lemma_default_numbers();
        assert(slots(r@) =~= seq![
            Slot::Text("reference"@),
            Slot::Number("x"@),
            Slot::Number("y"@),
        ]);
    }
    r
}

/// The parameters of a request to rotate a component.
pub fn rotate_component_params() -> (r: Vec<Param>)
    ensures
        slots(r@) == seq![
            Slot::Text("reference"@),
            Slot::Number("rotation"@),
        ],
        is_sound(slots(r@)),
{
    let r: Vec<Param> = vec![
        Param::Text("reference"),
        Param::Number("rotation"),
    ];
    proof {
        lemma_default_numbers();
        assert(slots(r@) =~= seq![
            Slot::Text("reference"@),
            Slot::Number("rotation"@),
        ]);
    }
    r
}

/// The parameters of a request that names a component: to delete, edit or find it.
pub fn name_component_params() -> (r: Vec<Param>)
    ensures
        slots(r@) == seq![
            Slot::Text("reference"@),
        ],
        is_sound(slots(r@)),
{
    let r: Vec<Param> = vec![
        Param::Text("reference"),
    ];
    proof {
        lemma_default_numbers();
        assert(slots(r@) =~= seq![
            Slot::Text("reference"@),
        ]);
    }
    r
}

/// The parameters of a request to list the pads of a component.
pub fn get_component_pads_params() -> (r: Vec<Param>)
    ensures
        slots(r@) == seq![
            Slot::Path("board"@),
            Slot::Text("reference"@),
        ],
        is_sound(slots(r@)),
{
    let r: Vec<Param> = vec![
        Param::Path("board"),
        Param::Text("reference"),
    ];
    proof {
        lemma_default_numbers();
        assert(slots(r@) =~= seq![
            Slot::Path("board"@),
            Slot::Text("reference"@),
        ]);
    }
    r
}

/// The parameters of a request for the position of a pad. A request that names no component
/// is answered like one for a pad that is not there, so its reference is read on its own.
pub fn get_pad_position_params() -> (r: Vec<Param>)
    ensures
        slots(r@) == seq![
            Slot::Text("pad_number"@),
            Slot::Path("board"@),
        ],
        is_sound(slots(r@)),
{
    let r: Vec<Param> = vec![
        Param::Text("pad_number"),
        Param::Path("board"),
    ];
    proof {
        lemma_default_numbers();
        assert(slots(r@) =~= seq![
            Slot::Text("pad_number"@),
            Slot::Path("board"@),
        ]);
    }
    r
}

/// The parameters of a request to set the net of a pad.
pub fn set_pad_net_params() -> (r: Vec<Param>)
    ensures
        slots(r@) == seq![
            Slot::Path("board"@),
            Slot::Text("reference"@),
            Slot::Text("pad"@),
            Slot::Text("net_name"@),
        ],
        is_sound(slots(r@)),
{
    let r: Vec<Param> = vec![
        Param::Path("board"),
        Param::Text("reference"),
        Param::Text("pad"),
        Param::Text("net_name"),
    ];
    proof {
        lemma_default_numbers();
        assert(slots(r@) =~= seq![
            Slot::Path("board"@),
            Slot::Text("reference"@),
            Slot::Text("pad"@),
            Slot::Text("net_name"@),
        ]);
    }
    r
}

/// The parameters of a request to place an array of components.
pub fn place_component_array_params() -> (r: Vec<Param>)
    ensures
        slots(r@) == seq![
            Slot::Text("footprint"@),
            Slot::Number("start_x"@),
            Slot::Number("start_y"@),
            Slot::CountOr("count_x"@, 1),
            Slot::CountOr("count_y"@, 1),
            Slot::Number("spacing_x"@),
            Slot::NumberOr("spacing_y"@, "0"@),
            Slot::TextOr("ref_prefix"@, "U"@),
            Slot::CountOr("ref_start"@, 1),
        ],
        is_sound(slots(r@)),
{
    let r: Vec<Param> = vec![
        Param::Text("footprint"),
        Param::Number("start_x"),
        Param::Number("start_y"),
        Param::CountOr("count_x", 1),
        Param::CountOr("count_y", 1),
        Param::Number("spacing_x"),
        Param::NumberOr("spacing_y", "0"),
        Param::TextOr("ref_prefix", "U"),
        Param::CountOr("ref_start", 1),
    ];
    proof {
        lemma_default_numbers();
        assert(slots(r@) =~= seq![
            Slot::Text("footprint"@),
            Slot::Number("start_x"@),
            Slot::Number("start_y"@),
            Slot::CountOr("count_x"@, 1),
            Slot::CountOr("count_y"@, 1),
            Slot::Number("spacing_x"@),
            Slot::NumberOr("spacing_y"@, "0"@),
            Slot::TextOr("ref_prefix"@, "U"@),
            Slot::CountOr("ref_start"@, 1),
        ]);
    }
    r
}

/// The parameters of a request to align components; the components are listed apart.
pub fn align_components_params() -> (r: Vec<Param>)
    ensures
        slots(r@) == seq![
            Slot::TextOr("axis"@, "x"@),
            Slot::Number("value"@),
        ],
        is_sound(slots(r@)),
{
    let r: Vec<Param> = vec![
        Param::TextOr("axis", "x"),
        Param::Number("value"),
    ];
    proof {
        lemma_default_numbers();
        assert(slots(r@) =~= seq![
            Slot::TextOr("axis"@, "x"@),
            Slot::Number("value"@),
        ]);
    }
    r
}

/// The parameters of a request to duplicate a component.
pub fn duplicate_component_params() -> (r: Vec<Param>)
    ensures
        slots(r@) == seq![
            Slot::Text("reference"@),
            Slot::Text("new_reference"@),
            Slot::Number("x"@),
            Slot::Number("y"@),
        ],
        is_sound(slots(r@)),
{
    let r: Vec<Param> = vec![
        Param::Text("reference"),
        Param::Text("new_reference"),
        Param::Number("x"),
        Param::Number("y"),
    ];
    proof {
        lemma_default_numbers();
        assert(slots(r@) =~= seq![
            Slot::Text("reference"@),
            Slot::Text("new_reference"@),
            Slot::Number("x"@),
            Slot::Number("y"@),
        ]);
    }
    r
}

/// The parameters of a request to show a board; its layers are listed apart.
pub fn get_board_2d_view_params() -> (r: Vec<Param>)
    ensures
        slots(r@) == seq![
            Slot::Path("board"@),
        ],
        is_sound(slots(r@)),
{
    let r: Vec<Param> = vec![
        Param::Path("board"),
    ];
    proof {
        lemma_default_numbers();
        assert(slots(r@) =~= seq![
            Slot::Path("board"@),
        ]);
    }
    r
}

// ─── Laws ─────────────────────────────────────────────────────────────────────

proof fn lemma_given(args: JsonTree, params: Seq<Slot>)
    ensures
        match givens_for(args, params) {
            Ok(v) => v.len() == params.len() && forall|i: int|
                0 <= i < params.len() ==> given_for(args, #[trigger] params[i]) == Ok::<
                    Given,
                    Missing,
                >(v[i]),
            Err(e) => exists|i: int|
                0 <= i < params.len() && given_for(args, #[trigger] params[i]) == Err::<
                    Given,
                    Missing,
                >(e) && forall|k: int|
                    0 <= k < i ==> given_for(args, #[trigger] params[k]) is Ok,
        },
    decreases params.len(),
{
    if params.len() > 0 {
        let before = params.drop_last();
        lemma_given(args, before);
        match givens_for(args, before) {
            Ok(v) => {
                assert forall|k: int| 0 <= k < before.len() implies given_for(
                    args,
                    #[trigger] params[k],
                ) == Ok::<Given, Missing>(v[k]) by {
                    assert(before[k] == params[k]);
                }
                if let Err(e) = given_for(args, params.last()) {
                    let i = params.len() - 1;
                    assert(given_for(args, params[i]) == Err::<Given, Missing>(e));
                }
            },
            Err(e) => {
                let i = choose|i: int|
                    0 <= i < before.len() && given_for(args, #[trigger] before[i]) == Err::<
                        Given,
                        Missing,
                    >(e) && forall|k: int|
                        0 <= k < i ==> given_for(args, #[trigger] before[k]) is Ok;
                assert(given_for(args, params[i]) == Err::<Given, Missing>(e));
                assert forall|k: int| 0 <= k < i implies given_for(
                    args,
                    #[trigger] params[k],
                ) is Ok by {
                    assert(before[k] == params[k]);
                }
            },
        }
    }
}

/// A request is answered with an error just where an argument is missing, and then with
/// the first one that is; otherwise every parameter has its argument.
pub proof fn law_first_missing_argument(args: JsonTree, params: Seq<Slot>)
    ensures
        match givens_for(args, params) {
            Ok(v) => v.len() == params.len() && forall|i: int|
                0 <= i < params.len() ==> given_for(args, #[trigger] params[i]) == Ok::<
                    Given,
                    Missing,
                >(v[i]),
            Err(e) => exists|i: int|
                0 <= i < params.len() && given_for(args, #[trigger] params[i]) == Err::<
                    Given,
                    Missing,
                >(e) && forall|k: int|
                    0 <= k < i ==> given_for(args, #[trigger] params[k]) is Ok,
        },
{
    lemma_given(args, params);
}

/// A text that is given is the argument, as it is, whether it must be given or not. One
/// that must be given and is not is an error that names it; another has its usual value.
pub proof fn law_text_arguments(args: JsonTree, name: Seq<char>, usual: Seq<char>)
    ensures
        args.get(name) matches Some(JsonTree::Text(t)) ==> {
            &&& given_for(args, Slot::Path(name)) == Ok::<Given, Missing>(Given::Text(t))
            &&& given_for(args, Slot::Text(name)) == Ok::<Given, Missing>(Given::Text(t))
            &&& given_for(args, Slot::TextOr(name, usual)) == Ok::<Given, Missing>(Given::Text(t))
        },
        !(args.get(name) matches Some(JsonTree::Text(_))) ==> {
            &&& given_for(args, Slot::Path(name)) == Err::<Given, Missing>(Missing::Path(name))
            &&& given_for(args, Slot::Text(name)) == Err::<Given, Missing>(Missing::Text(name))
            &&& given_for(args, Slot::TextOr(name, usual)) == Ok::<Given, Missing>(
                Given::Text(usual),
            )
        },
{
}

/// A number that is given is the argument, read as a float. One that must be given and is
/// not is an error that names it; another has its usual value.
pub proof fn law_number_arguments(args: JsonTree, name: Seq<char>, usual: Seq<char>)
    ensures
        args.get(name) matches Some(JsonTree::Number(n)) ==> {
            &&& given_for(args, Slot::Number(name)) == Ok::<Given, Missing>(
                Given::Number(float_number(n)),
            )
            &&& given_for(args, Slot::NumberOr(name, usual)) == Ok::<Given, Missing>(
                Given::Number(float_number(n)),
            )
        },
        !(args.get(name) matches Some(JsonTree::Number(_))) ==> {
            &&& given_for(args, Slot::Number(name)) == Err::<Given, Missing>(Missing::Number(name))
            &&& given_for(args, Slot::NumberOr(name, usual)) == Ok::<Given, Missing>(
                Given::Number(decimal_number(usual)),
            )
        },
{
}

/// A truth value and a count are the argument where they are given, and have their usual
/// value otherwise.
pub proof fn law_other_arguments(args: JsonTree, name: Seq<char>, usual: bool, count: u64)
    ensures
        args.get(name) matches Some(JsonTree::Bool(b)) ==> given_for(
            args,
            Slot::TruthOr(name, usual),
        ) == Ok::<Given, Missing>(Given::Truth(b)),
        !(args.get(name) matches Some(JsonTree::Bool(_))) ==> given_for(
            args,
            Slot::TruthOr(name, usual),
        ) == Ok::<Given, Missing>(Given::Truth(usual)),
        args.get(name) matches Some(JsonTree::Number(n)) ==> given_for(
            args,
            Slot::CountOr(name, count),
        ) == Ok::<Given, Missing>(
            Given::Count(
                match unsigned_number(n) {
                    Some(k) => k,
                    None => count,
                },
            ),
        ),
        !(args.get(name) matches Some(JsonTree::Number(_))) ==> given_for(
            args,
            Slot::CountOr(name, count),
        ) == Ok::<Given, Missing>(Given::Count(count)),
{
}

proof fn lemma_points_among(items: Seq<JsonTree>)
    ensures
        points_among(items) == items.filter(
            |p: JsonTree| p.get_float("x"@) is Some && p.get_float("y"@) is Some,
        ).map_values(|p: JsonTree| (p.get_float("x"@)->0, p.get_float("y"@)->0)),
    decreases items.len(),
{
    reveal(Seq::filter);
    if items.len() > 0 {
        lemma_points_among(items.drop_last());
    }
    assert(points_among(items) =~= items.filter(
        |p: JsonTree| p.get_float("x"@) is Some && p.get_float("y"@) is Some,
    ).map_values(|p: JsonTree| (p.get_float("x"@)->0, p.get_float("y"@)->0)));
}

/// The corners of a zone are all the points of the list that have two numbers, in their
/// order and with those numbers. Fewer than three are an error, and so is no list.
pub proof fn law_corners_of_a_request(args: JsonTree)
    ensures
        args.get("points"@) matches Some(JsonTree::Array(items)) ==> {
            let pts = items.filter(
                |p: JsonTree| p.get_float("x"@) is Some && p.get_float("y"@) is Some,
            ).map_values(|p: JsonTree| (p.get_float("x"@)->0, p.get_float("y"@)->0));
            &&& pts.len() >= 3 ==> zone_points_of(args) == Ok::<
                Seq<(serde_json::Number, serde_json::Number)>,
                Missing,
            >(pts)
            &&& pts.len() < 3 ==> zone_points_of(args) == Err::<
                Seq<(serde_json::Number, serde_json::Number)>,
                Missing,
            >(Missing::TooFewPoints)
        },
        !(args.get("points"@) matches Some(JsonTree::Array(_))) ==> zone_points_of(args) == Err::<
            Seq<(serde_json::Number, serde_json::Number)>,
            Missing,
        >(Missing::Points),
{
    if let Some(JsonTree::Array(items)) = args.get("points"@) {
        lemma_points_among(items);
    }
}

/// The nets of a filter and the components of a request are the texts that are listed, in
/// their order. A request without a list has no filter, and names no component.
pub proof fn law_lists_of_a_request(args: JsonTree)
    ensures
        args.get("net_filter"@) matches Some(JsonTree::Array(items)) ==> net_filter_of(args)
            == Some(
            items.filter(|v: JsonTree| v is Text).map_values(|v: JsonTree| v->Text_0),
        ),
        !(args.get("net_filter"@) matches Some(JsonTree::Array(_))) ==> net_filter_of(args) is None,
        args.get("references"@) matches Some(JsonTree::Array(items)) ==> references_of(args)
            == items.filter(|v: JsonTree| v is Text).map_values(|v: JsonTree| v->Text_0),
        !(args.get("references"@) matches Some(JsonTree::Array(_))) ==> references_of(args)
            == Seq::<Seq<char>>::empty(),
{
    if let Some(JsonTree::Array(items)) = args.get("net_filter"@) {
        law_texts_of_a_list(items);
    }
    if let Some(JsonTree::Array(items)) = args.get("references"@) {
        law_texts_of_a_list(items);
    }
}

/// An error says which argument is missing.
pub proof fn law_errors_name_the_argument(name: Seq<char>)
    ensures
        occurs(Missing::Path(name).text(), name),
        occurs(Missing::Text(name).text(), name),
        occurs(Missing::Number(name).text(), name),
{
    lemma_occurs_between("Missing '"@, name, "' path"@);
    lemma_occurs_between("Missing '"@, name, "' text"@);
    lemma_occurs_between("Missing '"@, name, "' number"@);
}

} // verus!
