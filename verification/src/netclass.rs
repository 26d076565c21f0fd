//! Netclasses: in the project file, where modern boards keep them, and in the board
//! file itself.
use vstd::prelude::*;
use crate::decimal::digit_run;
use crate::json::{
    decimal_number, field_trees, is_proper, is_short_decimal, is_within, json_document, json_trees,
    key_at, keys_differ, lemma_array_view, lemma_found_key, lemma_key_at, lemma_object_view,
    number_from, parse_json, pretty_json, pretty_text, set_field, with_field, Json, JsonTree,
};
use crate::text::same_text;

verus! {

// ─── Netclasses of a project ──────────────────────────────────────────────────

/// Why a netclass of a project was not written.
#[derive(Debug, Clone, Copy, PartialEq, Eq, Structural)]
pub enum ProjectError {
    /// The project file is not a JSON document.
    Malformed,
    /// The project has no list of netclasses.
    NoClasses,
}

impl ProjectError {
    /// What the error says of the project file at `path`.
    pub open spec fn text(self, path: Seq<char>) -> Seq<char> {
        match self {
            ProjectError::Malformed => "project file is not a JSON document: "@ + path,
            ProjectError::NoClasses => "project file has no net_settings.classes array: "@ + path,
        }
    }

    /// The error in words.
    pub fn message(self, path: &str) -> (r: String)
        ensures
            r@ == self.text(path@),
    {
        let mut out = match self {
            ProjectError::Malformed => "project file is not a JSON document: ".to_owned(),
            ProjectError::NoClasses =>
                "project file has no net_settings.classes array: ".to_owned(),
        };
        out.append(path);
        out
    }
}

/// The list of netclasses of a project.
pub open spec fn classes_of(root: JsonTree) -> Option<Seq<JsonTree>> {
    match root.get("net_settings"@) {
        Some(settings) => settings.get_items("classes"@),
        None => None,
    }
}

/// The project with another list of netclasses, all else in its place.
pub open spec fn with_classes(root: JsonTree, classes: Seq<JsonTree>) -> JsonTree {
    match root.get("net_settings"@) {
        Some(settings) => JsonTree::Object(
            with_field(
                root.fields(),
                "net_settings"@,
                JsonTree::Object(
                    with_field(settings.fields(), "classes"@, JsonTree::Array(classes)),
                ),
            ),
        ),
        None => root,
    }
}

/// The position of the first netclass of a name.
pub open spec fn class_at(classes: Seq<JsonTree>, name: Seq<char>) -> Option<int>
    decreases classes.len(),
{
    if classes.len() == 0 {
        None
    } else {
        match class_at(classes.drop_last(), name) {
            Some(i) => Some(i),
            None => if classes.last().get_text("name"@) == Some(name) {
                Some(classes.len() - 1)
            } else {
                None
            },
        }
    }
}

/// The fields of a netclass with the one called `key` set to the argument called
/// `arg`, where there is such an argument.
pub open spec fn with_argument(
    fields: Seq<(Seq<char>, JsonTree)>,
    args: JsonTree,
    arg: Seq<char>,
    key: Seq<char>,
) -> Seq<(Seq<char>, JsonTree)> {
    match args.get_float(arg) {
        Some(n) => with_field(fields, key, JsonTree::Number(n)),
        None => fields,
    }
}

/// A netclass brought up to date: only what the arguments give is set.
pub open spec fn updated_class(class: JsonTree, args: JsonTree) -> JsonTree {
    let f1 = with_argument(class.fields(), args, "clearance"@, "clearance"@);
    let f2 = with_argument(f1, args, "trace_width"@, "track_width"@);
    let f3 = with_argument(f2, args, "via_drill"@, "via_drill"@);
    JsonTree::Object(with_argument(f3, args, "via_diameter"@, "via_diameter"@))
}

/// An argument, or a decimal where it is not given.
pub open spec fn argument_or(args: JsonTree, arg: Seq<char>, default: Seq<char>) -> JsonTree {
    match args.get_float(arg) {
        Some(n) => JsonTree::Number(n),
        None => JsonTree::Number(decimal_number(default)),
    }
}

/// A new netclass, with what the arguments give and the usual values for the rest.
pub open spec fn new_class(name: Seq<char>, args: JsonTree) -> JsonTree {
    JsonTree::Object(
        seq![
            ("name"@, JsonTree::Text(name)),
            ("clearance"@, argument_or(args, "clearance"@, "0.2"@)),
            ("track_width"@, argument_or(args, "trace_width"@, "0.25"@)),
            ("via_drill"@, argument_or(args, "via_drill"@, "0.4"@)),
            ("via_diameter"@, argument_or(args, "via_diameter"@, "0.8"@)),
            ("bus_width"@, JsonTree::Number(decimal_number("12"@))),
            ("diff_pair_gap"@, JsonTree::Number(decimal_number("0.25"@))),
            ("diff_pair_via_gap"@, JsonTree::Number(decimal_number("0.25"@))),
            ("diff_pair_width"@, JsonTree::Number(decimal_number("0.2"@))),
            ("line_style"@, JsonTree::Number(decimal_number("0"@))),
            ("microvia_diameter"@, JsonTree::Number(decimal_number("0.3"@))),
            ("microvia_drill"@, JsonTree::Number(decimal_number("0.1"@))),
            ("pcb_color"@, JsonTree::Text("rgba(0, 0, 0, 0.000)"@)),
            ("priority"@, JsonTree::Number(decimal_number("2147483647"@))),
            ("schematic_color"@, JsonTree::Text("rgba(0, 0, 0, 0.000)"@)),
            ("tuning_profile"@, JsonTree::Text(""@)),
            ("wire_width"@, JsonTree::Number(decimal_number("6"@))),
        ],
    )
}

/// The netclass of a name after it was created or brought up to date.
pub open spec fn class_after(classes: Seq<JsonTree>, name: Seq<char>, args: JsonTree) -> JsonTree {
    match class_at(classes, name) {
        Some(i) => updated_class(classes[i], args),
        None => new_class(name, args),
    }
}

/// The netclasses after the one of a name was created or brought up to date.
pub open spec fn classes_after(classes: Seq<JsonTree>, name: Seq<char>, args: JsonTree) -> Seq<
    JsonTree,
> {
    match class_at(classes, name) {
        Some(i) => classes.update(i, class_after(classes, name, args)),
        None => classes.push(class_after(classes, name, args)),
    }
}

/// The project after the netclass of a name was created or brought up to date.
pub open spec fn project_after(root: JsonTree, name: Seq<char>, args: JsonTree) -> JsonTree {
    match classes_of(root) {
        Some(classes) => with_classes(root, classes_after(classes, name, args)),
        None => root,
    }
}

/// A project file with a netclass created or brought up to date.
#[derive(Debug)]
pub struct ProjectUpsert {
    /// Was there a netclass of that name?
    pub updated: bool,
    /// The netclass as it now stands.
    pub class: Json,
    /// The text of the project file.
    pub content: String,
}

/// Is `u` the project file `content` with the netclass of a name created or brought up
/// to date? Its text ends with a line break and reads back as that project.
pub open spec fn upserted(
    u: ProjectUpsert,
    content: Seq<char>,
    name: Seq<char>,
    args: JsonTree,
) -> bool {
    let root = json_document(content)->0;
    let classes = classes_of(root)->0;
    let after = project_after(root, name, args);
    &&& u.updated == class_at(classes, name) is Some
    &&& u.class@ == class_after(classes, name, args)
    &&& u.content@ == pretty_text(after).push('\n')
    &&& json_document(u.content@) == Some(after)
}

fn find_class(classes: &Vec<Json>, name: &str) -> (r: Option<usize>)
    ensures
        match r {
            Some(i) => class_at(json_trees(classes@), name@) == Some(i as int) && i
                < classes@.len(),
            None => class_at(json_trees(classes@), name@) is None,
        },
{
    let ghost all = json_trees(classes@);
    let mut found: Option<usize> = None;
    let mut i: usize = 0;
    while i < classes.len()
        invariant
            i <= classes@.len(),
            all == json_trees(classes@),
            match found {
                Some(k) => class_at(all.take(i as int), name@) == Some(k as int) && k < i,
                None => class_at(all.take(i as int), name@) is None,
            },
        decreases classes@.len() - i,
    {
        let c = &classes[i];
        proof {
            assert(all.take(i + 1).drop_last() =~= all.take(i as int));
            assert(all.take(i + 1).last() == c@);
        }
        let named = match c.get_str("name") {
            Some(t) => same_text(t, name),
            None => false,
        };
        if found.is_none() && named {
            found = Some(i);
        }
        i = i + 1;
    }
    assert(all.take(classes@.len() as int) =~= all);
    found
}

fn set_argument(fields: &mut Vec<(String, Json)>, args: &Json, arg: &str, key: &str)
    ensures
        field_trees(final(fields)@) == with_argument(
            field_trees(old(fields)@),
            args@,
            arg@,
            key@,
        ),
{
    if let Some(n) = args.get_float(arg) {
        set_field(fields, key, Json::Number(n));
    }
}

fn update_class(class: &Json, args: &Json) -> (r: Json)
    requires
        class@ is Object,
    ensures
        r@ == updated_class(class@, args@),
{
    match class.copy() {
        Json::Object(mut fields) => {
            proof {
                lemma_object_view(fields);
            }
            set_argument(&mut fields, args, "clearance", "clearance");
            set_argument(&mut fields, args, "trace_width", "track_width");
            set_argument(&mut fields, args, "via_drill", "via_drill");
            set_argument(&mut fields, args, "via_diameter", "via_diameter");
            proof {
                lemma_object_view(fields);
            }
            Json::Object(fields)
        },
        _ => vstd::pervasive::unreached(),
    }
}

spec fn first_and_length(key: Seq<char>) -> (char, nat) {
    (key[0], key.len())
}

proof fn lemma_new_class_keys(name: Seq<char>, args: JsonTree)
    ensures
        keys_differ(new_class(name, args).fields()),
{
    let f = new_class(name, args).fields();
    reveal_strlit("name");
    reveal_strlit("clearance");
    reveal_strlit("track_width");
    reveal_strlit("via_drill");
    reveal_strlit("via_diameter");
    reveal_strlit("bus_width");
    reveal_strlit("diff_pair_gap");
    reveal_strlit("diff_pair_via_gap");
    reveal_strlit("diff_pair_width");
    reveal_strlit("line_style");
    reveal_strlit("microvia_diameter");
    reveal_strlit("microvia_drill");
    reveal_strlit("pcb_color");
    reveal_strlit("priority");
    reveal_strlit("schematic_color");
    reveal_strlit("tuning_profile");
    reveal_strlit("wire_width");
    assert(first_and_length(f[0].0) == ('n', 4nat));
    assert(first_and_length(f[1].0) == ('c', 9nat));
    assert(first_and_length(f[2].0) == ('t', 11nat));
    assert(first_and_length(f[3].0) == ('v', 9nat));
    assert(first_and_length(f[4].0) == ('v', 12nat));
    assert(first_and_length(f[5].0) == ('b', 9nat));
    assert(first_and_length(f[6].0) == ('d', 13nat));
    assert(first_and_length(f[7].0) == ('d', 17nat));
    assert(first_and_length(f[8].0) == ('d', 15nat));
    assert(first_and_length(f[9].0) == ('l', 10nat));
    assert(first_and_length(f[10].0) == ('m', 17nat));
    assert(first_and_length(f[11].0) == ('m', 14nat));
    assert(first_and_length(f[12].0) == ('p', 9nat));
    assert(first_and_length(f[13].0) == ('p', 8nat));
    assert(first_and_length(f[14].0) == ('s', 15nat));
    assert(first_and_length(f[15].0) == ('t', 14nat));
    assert(first_and_length(f[16].0) == ('w', 10nat));
    assert forall|i: int, j: int| 0 <= i < j < f.len() implies (#[trigger] f[i]).0 != (
    #[trigger] f[j]).0 by {
        assert(i == 0 || i == 1 || i == 2 || i == 3 || i == 4 || i == 5 || i == 6 || i == 7 || i == 8 || i == 9 || i == 10 || i == 11 || i == 12 || i == 13 || i == 14 || i == 15 || i == 16);
        assert(j == 0 || j == 1 || j == 2 || j == 3 || j == 4 || j == 5 || j == 6 || j == 7 || j == 8 || j == 9 || j == 10 || j == 11 || j == 12 || j == 13 || j == 14 || j == 15 || j == 16);
        assert(first_and_length(f[i].0) != first_and_length(f[j].0));
    }
}

/// The usual values are short decimals.
proof fn lemma_usual_values()
    ensures
        is_short_decimal("0"@),
        is_short_decimal("6"@),
        is_short_decimal("12"@),
        is_short_decimal("2147483647"@),
        is_short_decimal("0.1"@),
        is_short_decimal("0.2"@),
        is_short_decimal("0.3"@),
        is_short_decimal("0.4"@),
        is_short_decimal("0.8"@),
        is_short_decimal("0.25"@),
{
    reveal_strlit("0");
    reveal_strlit("6");
    reveal_strlit("12");
    reveal_strlit("2147483647");
    reveal_strlit("0.1");
    reveal_strlit("0.2");
    reveal_strlit("0.3");
    reveal_strlit("0.4");
    reveal_strlit("0.8");
    reveal_strlit("0.25");
    reveal_with_fuel(digit_run, 11);
}

fn argument_or_default(args: &Json, arg: &str, default: &str) -> (r: Json)
    requires
        is_short_decimal(default@),
    ensures
        r@ == argument_or(args@, arg@, default@),
{
    match args.get_float(arg) {
        Some(n) => Json::Number(n),
        None => Json::Number(number_from(default)),
    }
}

fn number_field(key: &str, decimal: &str) -> (r: (String, Json))
    requires
        is_short_decimal(decimal@),
    ensures
        r.0@ == key@,
        r.1@ == JsonTree::Number(decimal_number(decimal@)),
{
    (key.to_owned(), Json::Number(number_from(decimal)))
}

fn text_field(key: &str, text: &str) -> (r: (String, Json))
    ensures
        r.0@ == key@,
        r.1@ == JsonTree::Text(text@),
{
    (key.to_owned(), Json::Text(text.to_owned()))
}

fn make_class(name: &str, args: &Json) -> (r: Json)
    ensures
        r@ == new_class(name@, args@),
{
    proof {
        lemma_usual_values();
    }
    let fields: Vec<(String, Json)> = vec![
        text_field("name", name),
        ("clearance".to_owned(), argument_or_default(args, "clearance", "0.2")),
        ("track_width".to_owned(), argument_or_default(args, "trace_width", "0.25")),
        ("via_drill".to_owned(), argument_or_default(args, "via_drill", "0.4")),
        ("via_diameter".to_owned(), argument_or_default(args, "via_diameter", "0.8")),
        number_field("bus_width", "12"),
        number_field("diff_pair_gap", "0.25"),
        number_field("diff_pair_via_gap", "0.25"),
        number_field("diff_pair_width", "0.2"),
        number_field("line_style", "0"),
        number_field("microvia_diameter", "0.3"),
        number_field("microvia_drill", "0.1"),
        text_field("pcb_color", "rgba(0, 0, 0, 0.000)"),
        number_field("priority", "2147483647"),
        text_field("schematic_color", "rgba(0, 0, 0, 0.000)"),
        text_field("tuning_profile", ""),
        number_field("wire_width", "6"),
    ];
    proof {
        lemma_object_view(fields);
        assert(field_trees(fields@) =~= new_class(name@, args@).fields());
    }
    Json::Object(fields)
}

// ─── What a change of a field keeps ───────────────────────────────────────────

proof fn lemma_with_field(fields: Seq<(Seq<char>, JsonTree)>, key: Seq<char>, value: JsonTree)
    requires
        is_proper(JsonTree::Object(fields)),
        is_proper(value),
    ensures
        is_proper(JsonTree::Object(with_field(fields, key, value))),
{
    lemma_key_at(fields, key);
    let after = with_field(fields, key, value);
    let t = JsonTree::Object(fields);
    assert(keys_differ(t->Object_0));
    assert forall|i: int, j: int| 0 <= i < j < after.len() implies (#[trigger] after[i]).0 != (
    #[trigger] after[j]).0 by {
        if j < fields.len() {
            assert(fields[i].0 != fields[j].0);
        } else {
            assert(fields[i].0 != key);
        }
    }
    assert forall|i: int| 0 <= i < after.len() implies is_proper((#[trigger] after[i]).1) by {
        if i < fields.len() {
            assert(is_proper(t->Object_0[i].1));
        }
    }
    let u = JsonTree::Object(after);
    assert(keys_differ(u->Object_0));
    assert forall|i: int| 0 <= i < u->Object_0.len() implies is_proper(
        (#[trigger] u->Object_0[i]).1,
    ) by {
        assert(is_proper(after[i].1));
    }
}

proof fn lemma_with_field_depth(
    fields: Seq<(Seq<char>, JsonTree)>,
    key: Seq<char>,
    value: JsonTree,
    depth: nat,
)
    requires
        depth > 0,
        is_within(JsonTree::Object(fields), depth),
        is_within(value, (depth - 1) as nat),
    ensures
        is_within(JsonTree::Object(with_field(fields, key, value)), depth),
{
    lemma_key_at(fields, key);
    let after = with_field(fields, key, value);
    let t = JsonTree::Object(fields);
    let u = JsonTree::Object(after);
    assert forall|i: int| 0 <= i < u->Object_0.len() implies is_within(
        (#[trigger] u->Object_0[i]).1,
        (depth - 1) as nat,
    ) by {
        if i < fields.len() {
            assert(is_within(t->Object_0[i].1, (depth - 1) as nat));
        }
    }
}

proof fn lemma_get(t: JsonTree, key: Seq<char>, depth: nat)
    requires
        t.get(key) is Some,
    ensures
        t is Object,
        is_proper(t) ==> is_proper(t.get(key)->0),
        is_within(t, depth) ==> depth > 0 && is_within(t.get(key)->0, (depth - 1) as nat),
{
    lemma_key_at(t.fields(), key);
    let i = key_at(t.fields(), key)->0;
    assert(t->Object_0[i].1 == t.get(key)->0);
}

proof fn lemma_argument(
    fields: Seq<(Seq<char>, JsonTree)>,
    args: JsonTree,
    arg: Seq<char>,
    key: Seq<char>,
    depth: nat,
)
    requires
        is_proper(JsonTree::Object(fields)),
    ensures
        is_proper(JsonTree::Object(with_argument(fields, args, arg, key))),
        is_within(JsonTree::Object(fields), depth) ==> is_within(
            JsonTree::Object(with_argument(fields, args, arg, key)),
            depth,
        ),
{
    if let Some(n) = args.get_float(arg) {
        lemma_with_field(fields, key, JsonTree::Number(n));
        if is_within(JsonTree::Object(fields), depth) {
            lemma_with_field_depth(fields, key, JsonTree::Number(n), depth);
        }
    }
}

proof fn lemma_class_after(classes: Seq<JsonTree>, name: Seq<char>, args: JsonTree, depth: nat)
    requires
        is_proper(JsonTree::Array(classes)),
        is_within(JsonTree::Array(classes), depth),
        depth > 1,
    ensures
        is_proper(JsonTree::Array(classes_after(classes, name, args))),
        is_within(JsonTree::Array(classes_after(classes, name, args)), depth),
{
    let t = JsonTree::Array(classes);
    let after = classes_after(classes, name, args);
    let class = class_after(classes, name, args);
    lemma_class_at(classes, name);
    match class_at(classes, name) {
        Some(i) => {
            assert(is_proper(t->Array_0[i]));
            assert(is_within(t->Array_0[i], (depth - 1) as nat));
            lemma_get(classes[i], "name"@, depth);
            let f0 = classes[i].fields();
            let d = (depth - 1) as nat;
            let f1 = with_argument(f0, args, "clearance"@, "clearance"@);
            let f2 = with_argument(f1, args, "trace_width"@, "track_width"@);
            let f3 = with_argument(f2, args, "via_drill"@, "via_drill"@);
            lemma_argument(f0, args, "clearance"@, "clearance"@, d);
            lemma_argument(f1, args, "trace_width"@, "track_width"@, d);
            lemma_argument(f2, args, "via_drill"@, "via_drill"@, d);
            lemma_argument(f3, args, "via_diameter"@, "via_diameter"@, d);
        },
        None => {
            lemma_new_class_keys(name, args);
            let f = class->Object_0;
            assert forall|i: int| 0 <= i < f.len() implies is_proper((#[trigger] f[i]).1)
                && is_within(f[i].1, (depth - 2) as nat) by {
                assert(f[i].1 is Text || f[i].1 is Number);
            }
        },
    }
    let u = JsonTree::Array(after);
    assert forall|i: int| 0 <= i < u->Array_0.len() implies is_proper(#[trigger] u->Array_0[i])
        && is_within(u->Array_0[i], (depth - 1) as nat) by {
        if i < classes.len() && after[i] == classes[i] {
            assert(is_proper(t->Array_0[i]));
        }
    }
}

/// A netclass is found where the name first stands.
proof fn lemma_class_at(classes: Seq<JsonTree>, name: Seq<char>)
    ensures
        match class_at(classes, name) {
            Some(i) => 0 <= i < classes.len() && classes[i].get_text("name"@) == Some(name)
                && forall|k: int|
                0 <= k < i ==> (#[trigger] classes[k]).get_text("name"@) != Some(name),
            None => forall|k: int|
                0 <= k < classes.len() ==> (#[trigger] classes[k]).get_text("name"@) != Some(name),
        },
    decreases classes.len(),
{
    if classes.len() > 0 {
        let before = classes.drop_last();
        lemma_class_at(before, name);
        assert forall|k: int| 0 <= k < before.len() implies before[k] == #[trigger] classes[k] by {}
    }
}

proof fn lemma_project_after(root: JsonTree, name: Seq<char>, args: JsonTree, depth: nat)
    requires
        is_proper(root),
        is_within(root, depth),
        classes_of(root) is Some,
        depth > 3,
    ensures
        is_proper(project_after(root, name, args)),
        is_within(project_after(root, name, args), depth),
{
    let settings = root.get("net_settings"@)->0;
    let classes = classes_of(root)->0;
    lemma_get(root, "net_settings"@, depth);
    lemma_get(settings, "classes"@, (depth - 1) as nat);
    let after = classes_after(classes, name, args);
    lemma_class_after(classes, name, args, (depth - 2) as nat);
    lemma_with_field(settings.fields(), "classes"@, JsonTree::Array(after));
    lemma_with_field_depth(
        settings.fields(),
        "classes"@,
        JsonTree::Array(after),
        (depth - 1) as nat,
    );
    let s = JsonTree::Object(with_field(settings.fields(), "classes"@, JsonTree::Array(after)));
    lemma_with_field(root.fields(), "net_settings"@, s);
    lemma_with_field_depth(root.fields(), "net_settings"@, s, depth);
}

// ─── Writing a netclass of a project ──────────────────────────────────────────

/// Does the project keep netclasses?
pub open spec fn has_classes(content: Seq<char>) -> bool {
    match json_document(content) {
        Some(root) => classes_of(root) is Some,
        None => false,
    }
}

/// Does the project file keep netclasses? A text that is not a JSON document does not.
pub fn project_has_netclasses(content: &str) -> (r: bool)
    ensures
        r == has_classes(content@),
{
    match parse_json(content) {
        Ok(root) => match root.get("net_settings") {
            Some(settings) => settings.get_array("classes").is_some(),
            None => false,
        },
        Err(_) => false,
    }
}

fn replace_classes(root: &Json, classes: Vec<Json>) -> (r: Json)
    requires
        classes_of(root@) is Some,
    ensures
        r@ == with_classes(root@, json_trees(classes@)),
{
    proof {
        lemma_get(root@, "net_settings"@, 0);
        lemma_get(root@.get("net_settings"@)->0, "classes"@, 0);
    }
    let settings = match root.get("net_settings") {
        Some(settings) => settings.copy(),
        None => vstd::pervasive::unreached(),
    };
    match (root.copy(), settings) {
        (Json::Object(mut fields), Json::Object(mut inner)) => {
            proof {
                lemma_object_view(fields);
                lemma_object_view(inner);
                lemma_array_view(classes);
            }
            set_field(&mut inner, "classes", Json::Array(classes));
            proof {
                lemma_object_view(inner);
            }
            set_field(&mut fields, "net_settings", Json::Object(inner));
            proof {
                lemma_object_view(fields);
            }
            Json::Object(fields)
        },
        _ => vstd::pervasive::unreached(),
    }
}

fn copy_classes(classes: &Vec<Json>) -> (r: Vec<Json>)
    ensures
        json_trees(r@) == json_trees(classes@),
{
    let mut out: Vec<Json> = Vec::new();
    let mut i: usize = 0;
    while i < classes.len()
        invariant
            i == out@.len(),
            i <= classes@.len(),
            forall|k: int| 0 <= k < i ==> (#[trigger] out@[k])@ == classes@[k]@,
        decreases classes@.len() - i,
    {
        out.push(classes[i].copy());
        i = i + 1;
    }
    assert(json_trees(out@) =~= json_trees(classes@));
    out
}

/// Creates the netclass of a name in the list of a parsed project, or brings it up to
/// date. An existing netclass keeps every field that the arguments do not give.
pub fn upsert_class(root: &Json, name: &str, args: &Json) -> (r: Option<(bool, Json, Json)>)
    ensures
        r is None <==> classes_of(root@) is None,
        r matches Some((updated, class, after)) ==> {
            let classes = classes_of(root@)->0;
            &&& updated == class_at(classes, name@) is Some
            &&& class@ == class_after(classes, name@, args@)
            &&& after@ == project_after(root@, name@, args@)
        },
{
    let found = match root.get("net_settings") {
        Some(settings) => settings.get_array("classes"),
        None => None,
    };
    let old_classes = match found {
        Some(classes) => classes,
        None => {
            return None;
        },
    };
    let mut classes = copy_classes(old_classes);
    let ghost before = json_trees(classes@);
    proof {
        lemma_class_at(before, name@);
    }
    match find_class(&classes, name) {
        Some(i) => {
            proof {
                lemma_get(before[i as int], "name"@, 0);
            }
            let class = update_class(&classes[i], args);
            classes.set(i, class.copy());
            assert(json_trees(classes@) =~= before.update(i as int, class@));
            let after = replace_classes(root, classes);
            Some((true, class, after))
        },
        None => {
            let class = make_class(name, args);
            classes.push(class.copy());
            assert(json_trees(classes@) =~= before.push(class@));
            let after = replace_classes(root, classes);
            Some((false, class, after))
        },
    }
}

/// Creates the netclass of a name in the text of a project file, or brings it up to
/// date. An existing netclass keeps every field that the arguments do not give.
pub fn upsert_project_netclass(content: &str, name: &str, args: &Json) -> (r: Result<
    ProjectUpsert,
    ProjectError,
>)
    ensures
        match r {
            Ok(u) => has_classes(content@) && upserted(u, content@, name@, args@),
            Err(ProjectError::Malformed) => json_document(content@) is None,
            Err(ProjectError::NoClasses) => json_document(content@) is Some && !has_classes(
                content@,
            ),
        },
{
    let root = match parse_json(content) {
        Ok(root) => root,
        Err(_) => {
            return Err(ProjectError::Malformed);
        },
    };
    match upsert_class(&root, name, args) {
        None => Err(ProjectError::NoClasses),
        Some((updated, class, after)) => {
            proof {
                lemma_project_after(root@, name@, args@, 127);
            }
            let mut text = pretty_json(&after);
            text.push('\n');
            Ok(ProjectUpsert { updated, class, content: text })
        },
    }
}

// ─── Laws ─────────────────────────────────────────────────────────────────────

proof fn lemma_with_field_get(
    fields: Seq<(Seq<char>, JsonTree)>,
    key: Seq<char>,
    value: JsonTree,
    other: Seq<char>,
)
    ensures
        ({
            let after = with_field(fields, key, value);
            &&& JsonTree::Object(after).get(key) == Some(value)
            &&& other != key ==> JsonTree::Object(after).get(other) == JsonTree::Object(fields).get(
                other,
            )
            &&& fields.len() <= after.len()
            &&& key_at(fields, key) is Some ==> after.len() == fields.len()
            &&& forall|i: int| 0 <= i < fields.len() ==> (#[trigger] after[i]).0 == fields[i].0
        }),
{
    let after = with_field(fields, key, value);
    lemma_key_at(fields, key);
    lemma_key_at(fields, other);
    let at = match key_at(fields, key) {
        Some(i) => i,
        None => fields.len() as int,
    };
    assert forall|k: int| 0 <= k < at implies (#[trigger] after[k]).0 != key by {
        assert(fields[k].0 != key);
    }
    lemma_found_key(after, key, at);
    if other != key {
        match key_at(fields, other) {
            Some(j) => {
                assert forall|k: int| 0 <= k < j implies (#[trigger] after[k]).0 != other by {
                    assert(fields[k].0 != other);
                }
                lemma_found_key(after, other, j);
            },
            None => {
                lemma_key_at(after, other);
                if let Some(j) = key_at(after, other) {
                    if j < fields.len() {
                        assert(fields[j].0 != other);
                    }
                }
            },
        }
    }
}

proof fn lemma_with_argument_get(
    fields: Seq<(Seq<char>, JsonTree)>,
    args: JsonTree,
    arg: Seq<char>,
    key: Seq<char>,
    other: Seq<char>,
)
    ensures
        ({
            let after = with_argument(fields, args, arg, key);
            &&& args.get_float(arg) matches Some(n) ==> JsonTree::Object(after).get(key) == Some(
                JsonTree::Number(n),
            )
            &&& other != key || args.get_float(arg) is None ==> JsonTree::Object(after).get(other)
                == JsonTree::Object(fields).get(other)
            &&& fields.len() <= after.len()
            &&& forall|i: int| 0 <= i < fields.len() ==> (#[trigger] after[i]).0 == fields[i].0
        }),
{
    if let Some(n) = args.get_float(arg) {
        lemma_with_field_get(fields, key, JsonTree::Number(n), other);
    }
}

proof fn lemma_class_keys()
    ensures
        "name"@ != "clearance"@,
        "name"@ != "track_width"@,
        "name"@ != "via_drill"@,
        "name"@ != "via_diameter"@,
        "clearance"@ != "track_width"@,
        "clearance"@ != "via_drill"@,
        "clearance"@ != "via_diameter"@,
        "track_width"@ != "via_drill"@,
        "track_width"@ != "via_diameter"@,
        "via_drill"@ != "via_diameter"@,
{
    reveal_strlit("name");
    reveal_strlit("clearance");
    reveal_strlit("track_width");
    reveal_strlit("via_drill");
    reveal_strlit("via_diameter");
    assert("name"@.len() == 4);
    assert("clearance"@.len() == 9);
    assert("track_width"@.len() == 11);
    assert("via_drill"@.len() == 9);
    assert("via_diameter"@.len() == 12);
    assert("clearance"@[0] != "via_drill"@[0]);
}

proof fn lemma_updated_class(class: JsonTree, args: JsonTree, key: Seq<char>)
    requires
        class is Object,
    ensures
        ({
            let after = updated_class(class, args);
            &&& (key == "clearance"@ ==> args.get_float("clearance"@) is None) && (key
                == "track_width"@ ==> args.get_float("trace_width"@) is None) && (key
                == "via_drill"@ ==> args.get_float("via_drill"@) is None) && (key
                == "via_diameter"@ ==> args.get_float("via_diameter"@) is None) ==> after.get(key)
                == class.get(key)
            &&& args.get_float("clearance"@) matches Some(n) ==> after.get("clearance"@) == Some(
                JsonTree::Number(n),
            )
            &&& args.get_float("trace_width"@) matches Some(n) ==> after.get("track_width"@)
                == Some(JsonTree::Number(n))
            &&& args.get_float("via_drill"@) matches Some(n) ==> after.get("via_drill"@) == Some(
                JsonTree::Number(n),
            )
            &&& args.get_float("via_diameter"@) matches Some(n) ==> after.get("via_diameter"@)
                == Some(JsonTree::Number(n))
            &&& class.fields().len() <= after.fields().len()
            &&& forall|i: int|
                0 <= i < class.fields().len() ==> (#[trigger] after.fields()[i]).0
                    == class.fields()[i].0
        }),
{
    lemma_class_keys();
    let f0 = class.fields();
    let f1 = with_argument(f0, args, "clearance"@, "clearance"@);
    let f2 = with_argument(f1, args, "trace_width"@, "track_width"@);
    let f3 = with_argument(f2, args, "via_drill"@, "via_drill"@);
    let f4 = with_argument(f3, args, "via_diameter"@, "via_diameter"@);
    assert(class == JsonTree::Object(f0));
    lemma_with_argument_get(f0, args, "clearance"@, "clearance"@, key);
    lemma_with_argument_get(f1, args, "trace_width"@, "track_width"@, key);
    lemma_with_argument_get(f2, args, "via_drill"@, "via_drill"@, key);
    lemma_with_argument_get(f3, args, "via_diameter"@, "via_diameter"@, key);
    lemma_with_argument_get(f1, args, "trace_width"@, "track_width"@, "clearance"@);
    lemma_with_argument_get(f2, args, "via_drill"@, "via_drill"@, "clearance"@);
    lemma_with_argument_get(f3, args, "via_diameter"@, "via_diameter"@, "clearance"@);
    lemma_with_argument_get(f2, args, "via_drill"@, "via_drill"@, "track_width"@);
    lemma_with_argument_get(f3, args, "via_diameter"@, "via_diameter"@, "track_width"@);
    lemma_with_argument_get(f3, args, "via_diameter"@, "via_diameter"@, "via_drill"@);
    assert forall|i: int| 0 <= i < f0.len() implies (#[trigger] f4[i]).0 == f0[i].0 by {
        assert(f1[i].0 == f0[i].0);
        assert(f2[i].0 == f1[i].0);
        assert(f3[i].0 == f2[i].0);
    }
}

/// Bringing a netclass up to date sets what the arguments give and nothing else:
/// every field that they do not give keeps its value, and every field its place.
pub proof fn law_untouched_fields_survive(class: JsonTree, args: JsonTree, key: Seq<char>)
    requires
        class is Object,
        key == "clearance"@ ==> args.get_float("clearance"@) is None,
        key == "track_width"@ ==> args.get_float("trace_width"@) is None,
        key == "via_drill"@ ==> args.get_float("via_drill"@) is None,
        key == "via_diameter"@ ==> args.get_float("via_diameter"@) is None,
    ensures
        updated_class(class, args).get(key) == class.get(key),
        class.fields().len() <= updated_class(class, args).fields().len(),
        forall|i: int|
            0 <= i < class.fields().len() ==> (#[trigger] updated_class(class, args).fields()[i]).0
                == class.fields()[i].0,
{
    lemma_updated_class(class, args, key);
}

/// Creating a netclass or bringing it up to date leaves the other netclasses as they
/// are, and never makes a second one of the same name: one is added only where there
/// was none.
pub proof fn law_other_classes_survive(
    classes: Seq<JsonTree>,
    name: Seq<char>,
    args: JsonTree,
    j: int,
)
    requires
        0 <= j < classes.len(),
        class_at(classes, name) != Some(j),
    ensures
        classes_after(classes, name, args)[j] == classes[j],
        classes_after(classes, name, args).len() == classes.len() + (if class_at(
            classes,
            name,
        ) is Some {
            0int
        } else {
            1
        }),
{
    lemma_class_at(classes, name);
}

/// Everything in a project but its list of netclasses survives, in its place.
pub proof fn law_rest_of_the_project_survives(
    root: JsonTree,
    name: Seq<char>,
    args: JsonTree,
    key: Seq<char>,
)
    requires
        classes_of(root) is Some,
    ensures
        ({
            let after = project_after(root, name, args);
            let settings = root.get("net_settings"@)->0;
            let new_settings = after.get("net_settings"@)->0;
            &&& key != "net_settings"@ ==> after.get(key) == root.get(key)
            &&& key != "classes"@ ==> new_settings.get(key) == settings.get(key)
            &&& after.fields().len() == root.fields().len()
            &&& forall|i: int|
                0 <= i < root.fields().len() ==> (#[trigger] after.fields()[i]).0
                    == root.fields()[i].0
            &&& new_settings.fields().len() == settings.fields().len()
            &&& forall|i: int|
                0 <= i < settings.fields().len() ==> (#[trigger] new_settings.fields()[i]).0
                    == settings.fields()[i].0
        }),
{
    let settings = root.get("net_settings"@)->0;
    let classes = classes_of(root)->0;
    lemma_get(root, "net_settings"@, 0);
    lemma_get(settings, "classes"@, 0);
    lemma_key_at(root.fields(), "net_settings"@);
    let list = JsonTree::Array(classes_after(classes, name, args));
    lemma_with_field_get(settings.fields(), "classes"@, list, key);
    let s = JsonTree::Object(with_field(settings.fields(), "classes"@, list));
    lemma_with_field_get(root.fields(), "net_settings"@, s, key);
    assert(root == JsonTree::Object(root.fields()));
    assert(settings == JsonTree::Object(settings.fields()));
}

proof fn lemma_argument_again(
    fields: Seq<(Seq<char>, JsonTree)>,
    args: JsonTree,
    arg: Seq<char>,
    key: Seq<char>,
)
    requires
        args.get_float(arg) matches Some(n) ==> JsonTree::Object(fields).get(key) == Some(
            JsonTree::Number(n),
        ),
    ensures
        with_argument(fields, args, arg, key) == fields,
{
    if let Some(n) = args.get_float(arg) {
        lemma_key_at(fields, key);
        assert(with_field(fields, key, JsonTree::Number(n)) =~= fields);
    }
}

proof fn lemma_class_again(class: JsonTree, args: JsonTree)
    requires
        class is Object,
        args.get_float("clearance"@) matches Some(n) ==> class.get("clearance"@) == Some(
            JsonTree::Number(n),
        ),
        args.get_float("trace_width"@) matches Some(n) ==> class.get("track_width"@) == Some(
            JsonTree::Number(n),
        ),
        args.get_float("via_drill"@) matches Some(n) ==> class.get("via_drill"@) == Some(
            JsonTree::Number(n),
        ),
        args.get_float("via_diameter"@) matches Some(n) ==> class.get("via_diameter"@) == Some(
            JsonTree::Number(n),
        ),
    ensures
        updated_class(class, args) == class,
{
    let f = class.fields();
    assert(class == JsonTree::Object(f));
    lemma_argument_again(f, args, "clearance"@, "clearance"@);
    lemma_argument_again(f, args, "trace_width"@, "track_width"@);
    lemma_argument_again(f, args, "via_drill"@, "via_drill"@);
    lemma_argument_again(f, args, "via_diameter"@, "via_diameter"@);
}

proof fn lemma_new_class_field(name: Seq<char>, args: JsonTree, i: int)
    requires
        0 <= i < new_class(name, args).fields().len(),
    ensures
        new_class(name, args).get(new_class(name, args).fields()[i].0) == Some(
            new_class(name, args).fields()[i].1,
        ),
{
    lemma_new_class_keys(name, args);
    let f = new_class(name, args).fields();
    assert forall|k: int| 0 <= k < i implies (#[trigger] f[k]).0 != f[i].0 by {}
    lemma_found_key(f, f[i].0, i);
}

proof fn lemma_found_class(classes: Seq<JsonTree>, name: Seq<char>, i: int)
    requires
        0 <= i < classes.len(),
        classes[i].get_text("name"@) == Some(name),
        forall|k: int| 0 <= k < i ==> (#[trigger] classes[k]).get_text("name"@) != Some(name),
    ensures
        class_at(classes, name) == Some(i),
{
    lemma_class_at(classes, name);
    if let Some(j) = class_at(classes, name) {
        if j < i {
            assert(classes[j].get_text("name"@) != Some(name));
        } else if i < j {
            assert(classes[i].get_text("name"@) != Some(name));
        }
    }
}

/// Doing the same again changes nothing more: the second time the netclass is there,
/// and the project stays as it is.
pub proof fn law_upsert_twice(root: JsonTree, name: Seq<char>, args: JsonTree)
    requires
        classes_of(root) is Some,
    ensures
        ({
            let after = project_after(root, name, args);
            &&& classes_of(after) matches Some(classes) && class_at(classes, name) is Some
            &&& project_after(after, name, args) == after
        }),
{
    let settings = root.get("net_settings"@)->0;
    let classes = classes_of(root)->0;
    let once = classes_after(classes, name, args);
    let after = project_after(root, name, args);
    let list = JsonTree::Array(once);
    lemma_with_field_get(settings.fields(), "classes"@, list, "classes"@);
    let s = JsonTree::Object(with_field(settings.fields(), "classes"@, list));
    lemma_with_field_get(root.fields(), "net_settings"@, s, "net_settings"@);
    assert(classes_of(after) == Some(once));

    lemma_class_keys();
    lemma_class_at(classes, name);
    let class = class_after(classes, name, args);
    let i = match class_at(classes, name) {
        Some(i) => i,
        None => classes.len() as int,
    };
    match class_at(classes, name) {
        Some(i) => {
            lemma_get(classes[i], "name"@, 0);
            lemma_updated_class(classes[i], args, "name"@);
        },
        None => {
            let f = new_class(name, args).fields();
            lemma_new_class_field(name, args, 0);
            lemma_new_class_field(name, args, 1);
            lemma_new_class_field(name, args, 2);
            lemma_new_class_field(name, args, 3);
            lemma_new_class_field(name, args, 4);
            assert(f[0].0 == "name"@ && f[1].0 == "clearance"@ && f[2].0 == "track_width"@
                && f[3].0 == "via_drill"@ && f[4].0 == "via_diameter"@);
        },
    }
    lemma_class_again(class, args);
    assert forall|k: int| 0 <= k < i implies (#[trigger] once[k]).get_text("name"@) != Some(
        name,
    ) by {
        assert(once[k] == classes[k]);
    }
    lemma_found_class(once, name, i);
    assert(classes_after(once, name, args) =~= once);
    lemma_key_at(after.fields(), "net_settings"@);
    lemma_key_at(s.fields(), "classes"@);
    assert(with_field(s.fields(), "classes"@, list) =~= s.fields());
    assert(with_field(after.fields(), "net_settings"@, s) =~= after.fields());
}

/// Is the field `key` of a netclass set from the argument `arg`? It is what was given, or
/// else what it was before; in a new netclass it is the usual value.
pub open spec fn is_set_from(
    class: JsonTree,
    before: Option<JsonTree>,
    args: JsonTree,
    key: Seq<char>,
    arg: Seq<char>,
    usual: Seq<char>,
) -> bool {
    &&& args.get_float(arg) matches Some(n) ==> class.get(key) == Some(JsonTree::Number(n))
    &&& args.get_float(arg) is None && before is Some ==> class.get(key) == before->0.get(key)
    &&& args.get_float(arg) is None && before is None ==> class.get(key) == Some(
        JsonTree::Number(decimal_number(usual)),
    )
}

/// What is written is the netclass that was asked for: after the call the project has, in
/// the place of the first netclass of the name or else at the end of its list, one with the
/// name and with every measure that was given. The rest of the list stays.
pub proof fn law_netclass_is_what_was_asked_for(
    root: JsonTree,
    settings: JsonTree,
    classes: Seq<JsonTree>,
    name: Seq<char>,
    args: JsonTree,
    i: int,
)
    requires
        root.get("net_settings"@) == Some(settings),
        settings.get("classes"@) == Some(JsonTree::Array(classes)),
        0 <= i <= classes.len(),
        forall|k: int| 0 <= k < i ==> (#[trigger] classes[k]).get_text("name"@) != Some(name),
        i < classes.len() ==> classes[i].get_text("name"@) == Some(name),
    ensures
        ({
            let after = project_after(root, name, args);
            let new_settings = after.get("net_settings"@)->0;
            let new = new_settings.get("classes"@)->0->Array_0;
            let before = if i < classes.len() {
                Some(classes[i])
            } else {
                None
            };
            &&& after.get("net_settings"@) is Some
            &&& new_settings.get("classes"@) matches Some(JsonTree::Array(_))
            &&& i < classes.len() ==> new == classes.update(i, new[i])
            &&& i == classes.len() ==> new == classes.push(new[i])
            &&& class_after(classes, name, args) == new[i]
            &&& class_at(classes, name) is Some <==> i < classes.len()
            &&& new[i].get_text("name"@) == Some(name)
            &&& is_set_from(new[i], before, args, "clearance"@, "clearance"@, "0.2"@)
            &&& is_set_from(new[i], before, args, "track_width"@, "trace_width"@, "0.25"@)
            &&& is_set_from(new[i], before, args, "via_drill"@, "via_drill"@, "0.4"@)
            &&& is_set_from(new[i], before, args, "via_diameter"@, "via_diameter"@, "0.8"@)
        }),
{
    let once = classes_after(classes, name, args);
    let list = JsonTree::Array(once);
    lemma_with_field_get(settings.fields(), "classes"@, list, "classes"@);
    let s = JsonTree::Object(with_field(settings.fields(), "classes"@, list));
    lemma_with_field_get(root.fields(), "net_settings"@, s, "net_settings"@);
    lemma_class_keys();
    if i < classes.len() {
        lemma_found_class(classes, name, i);
        lemma_get(classes[i], "name"@, 0);
        lemma_updated_class(classes[i], args, "name"@);
        lemma_updated_class(classes[i], args, "clearance"@);
        lemma_updated_class(classes[i], args, "track_width"@);
        lemma_updated_class(classes[i], args, "via_drill"@);
        lemma_updated_class(classes[i], args, "via_diameter"@);
        assert(once =~= classes.update(i, once[i]));
    } else {
        lemma_class_at(classes, name);
        if let Some(j) = class_at(classes, name) {
            assert(classes[j].get_text("name"@) != Some(name));
        }
        let f = new_class(name, args).fields();
        lemma_new_class_field(name, args, 0);
        lemma_new_class_field(name, args, 1);
        lemma_new_class_field(name, args, 2);
        lemma_new_class_field(name, args, 3);
        lemma_new_class_field(name, args, 4);
        assert(f[0].0 == "name"@ && f[1].0 == "clearance"@ && f[2].0 == "track_width"@ && f[3].0
            == "via_drill"@ && f[4].0 == "via_diameter"@);
        assert(once =~= classes.push(once[i]));
    }
}

/// A new netclass has its name, its four measures and the fields that KiCad writes for every
/// netclass, and nothing else; each of those has its usual value.
pub proof fn law_fields_of_a_new_netclass(name: Seq<char>, args: JsonTree)
    ensures
        ({
            let class = new_class(name, args);
            &&& class.fields().len() == 17
            &&& class.get("bus_width"@) == Some(JsonTree::Number(decimal_number("12"@)))
            &&& class.get("diff_pair_gap"@) == Some(JsonTree::Number(decimal_number("0.25"@)))
            &&& class.get("diff_pair_via_gap"@) == Some(JsonTree::Number(decimal_number("0.25"@)))
            &&& class.get("diff_pair_width"@) == Some(JsonTree::Number(decimal_number("0.2"@)))
            &&& class.get("line_style"@) == Some(JsonTree::Number(decimal_number("0"@)))
            &&& class.get("microvia_diameter"@) == Some(JsonTree::Number(decimal_number("0.3"@)))
            &&& class.get("microvia_drill"@) == Some(JsonTree::Number(decimal_number("0.1"@)))
            &&& class.get("pcb_color"@) == Some(JsonTree::Text("rgba(0, 0, 0, 0.000)"@))
            &&& class.get("priority"@) == Some(JsonTree::Number(decimal_number("2147483647"@)))
            &&& class.get("schematic_color"@) == Some(JsonTree::Text("rgba(0, 0, 0, 0.000)"@))
            &&& class.get("tuning_profile"@) == Some(JsonTree::Text(""@))
            &&& class.get("wire_width"@) == Some(JsonTree::Number(decimal_number("6"@)))
        }),
{
    let f = new_class(name, args).fields();
    lemma_new_class_field(name, args, 5);
    lemma_new_class_field(name, args, 6);
    lemma_new_class_field(name, args, 7);
    lemma_new_class_field(name, args, 8);
    lemma_new_class_field(name, args, 9);
    lemma_new_class_field(name, args, 10);
    lemma_new_class_field(name, args, 11);
    lemma_new_class_field(name, args, 12);
    lemma_new_class_field(name, args, 13);
    lemma_new_class_field(name, args, 14);
    lemma_new_class_field(name, args, 15);
    lemma_new_class_field(name, args, 16);
    assert(f.len() == 17);
    assert(f[5].0 == "bus_width"@ && f[6].0 == "diff_pair_gap"@ && f[7].0 == "diff_pair_via_gap"@
        && f[8].0 == "diff_pair_width"@);
    assert(f[9].0 == "line_style"@ && f[10].0 == "microvia_diameter"@ && f[11].0
        == "microvia_drill"@ && f[12].0 == "pcb_color"@);
    assert(f[13].0 == "priority"@ && f[14].0 == "schematic_color"@ && f[15].0
        == "tuning_profile"@ && f[16].0 == "wire_width"@);
}

/// A project file that was written is the project with the netclass: its text ends with a line
/// break and is read back as that project, and it was an update just where the list had a
/// netclass of the name.
pub proof fn law_written_project(
    u: ProjectUpsert,
    content: Seq<char>,
    name: Seq<char>,
    args: JsonTree,
    classes: Seq<JsonTree>,
)
    requires
        upserted(u, content, name, args),
        json_document(content) is Some,
        classes_of(json_document(content)->0) == Some(classes),
    ensures
        u.content@.len() > 0,
        u.content@.last() == '\n',
        json_document(u.content@) == Some(project_after(json_document(content)->0, name, args)),
        u.updated <==> exists|k: int|
            0 <= k < classes.len() && (#[trigger] classes[k]).get_text("name"@) == Some(name),
        u.class@.get_text("name"@) == Some(name),
{
    let root = json_document(content)->0;
    let settings = root.get("net_settings"@)->0;
    lemma_class_at(classes, name);
    let i = match class_at(classes, name) {
        Some(i) => i,
        None => classes.len() as int,
    };
    assert(settings.get("classes"@) == Some(JsonTree::Array(classes)));
    law_netclass_is_what_was_asked_for(root, settings, classes, name, args, i);
}

/// An error says which project file it is about, at its end.
pub proof fn law_project_errors_name_the_file(e: ProjectError, path: Seq<char>)
    ensures
        e.text(path).len() > path.len(),
        e.text(path).skip(e.text(path).len() - path.len()) == path,
{
    reveal_strlit("project file is not a JSON document: ");
    reveal_strlit("project file has no net_settings.classes array: ");
    assert(e.text(path).skip(e.text(path).len() - path.len()) =~= path);
}

} // verus!
