//! The Zed editor backend: its narration keybindings and tasks, and the
//! health check of that integration. Config files are read and written by
//! the caller; here they are JSON values.

use vstd::prelude::*;
use crate::merge::keep_seq;
use crate::model::RawEditor;
use crate::text::{push_str, str_eq, string_views};

verus! {

broadcast use vstd::string::group_string_axioms;

// ── JSON values ─────────────────────────────────────────────────────────────

/// A JSON value. Object members are in key order, as `serde_json` keeps them.
#[derive(Debug)]
pub enum Json {
    Null,
    Bool(bool),
    /// A number, as its JSON text.
    Number(String),
    Str(String),
    Array(Vec<Json>),
    Object(Vec<(String, Json)>),
}

/// The mathematical model of a JSON value.
pub enum JsonView {
    Null,
    Bool(bool),
    Number(Seq<char>),
    Str(Seq<char>),
    Array(Seq<JsonView>),
    Object(Seq<(Seq<char>, JsonView)>),
}

/// The model of a JSON value.
pub open spec fn jview(j: Json) -> JsonView
    decreases j,
{
    match j {
        Json::Null => JsonView::Null,
        Json::Bool(b) => JsonView::Bool(b),
        Json::Number(n) => JsonView::Number(n@),
        Json::Str(s) => JsonView::Str(s@),
        Json::Array(v) => JsonView::Array(
            Seq::new(
                v@.len(),
                |i: int|
                    if 0 <= i < v@.len() {
                        proof {
                            assert(decreases_to!(v => v@));
                        }
                        jview(v@[i])
                    } else {
                        JsonView::Null
                    },
            ),
        ),
        Json::Object(m) => JsonView::Object(
            Seq::new(
                m@.len(),
                |i: int|
                    if 0 <= i < m@.len() {
                        (m@[i].0@, jview(m@[i].1))
                    } else {
                        (Seq::empty(), JsonView::Null)
                    },
            ),
        ),
    }
}

/// The models of a list of JSON values.
pub open spec fn jviews(s: Seq<Json>) -> Seq<JsonView> {
    s.map_values(|j: Json| jview(j))
}

/// Deep equality of two JSON values.
pub fn json_eq(a: &Json, b: &Json) -> (r: bool)
    ensures
        r == (jview(*a) == jview(*b)),
    decreases a,
{
    match (a, b) {
        (Json::Null, Json::Null) => true,
        (Json::Bool(x), Json::Bool(y)) => *x == *y,
        (Json::Number(x), Json::Number(y)) => str_eq(x.as_str(), y.as_str()),
        (Json::Str(x), Json::Str(y)) => str_eq(x.as_str(), y.as_str()),
        (Json::Array(x), Json::Array(y)) => {
            if x.len() != y.len() {
                assert(jview(*a)->Array_0.len() != jview(*b)->Array_0.len());
                return false;
            }
            let mut i: usize = 0;
            while i < x.len()
                invariant
                    i <= x.len(),
                    x.len() == y.len(),
                    *a == Json::Array(*x),
                    *b == Json::Array(*y),
                    forall|k: int| 0 <= k < i ==> jview(x@[k]) == jview(y@[k]),
                decreases x.len() - i,
            {
                if !json_eq(&x[i], &y[i]) {
                    assert(jview(*a)->Array_0[i as int] != jview(*b)->Array_0[i as int]);
                    return false;
                }
                i += 1;
            }
            assert(jview(*a)->Array_0 =~= jview(*b)->Array_0);
            true
        },
        (Json::Object(x), Json::Object(y)) => {
            if x.len() != y.len() {
                assert(jview(*a)->Object_0.len() != jview(*b)->Object_0.len());
                return false;
            }
            let mut i: usize = 0;
            while i < x.len()
                invariant
                    i <= x.len(),
                    x.len() == y.len(),
                    *a == Json::Object(*x),
                    *b == Json::Object(*y),
                    forall|k: int|
                        0 <= k < i ==> x@[k].0@ == y@[k].0@ && jview(x@[k].1) == jview(y@[k].1),
                decreases x.len() - i,
            {
                if !str_eq(x[i].0.as_str(), y[i].0.as_str()) || !json_eq(&x[i].1, &y[i].1) {
                    assert(jview(*a)->Object_0[i as int] != jview(*b)->Object_0[i as int]);
                    return false;
                }
                i += 1;
            }
            assert(jview(*a)->Object_0 =~= jview(*b)->Object_0);
            true
        },
        _ => false,
    }
}

/// The member `key` of an object (the first one, should there be several).
pub open spec fn member_of(m: Seq<(Seq<char>, JsonView)>, key: Seq<char>) -> Option<JsonView>
    decreases m.len(),
{
    if m.len() == 0 {
        None
    } else if m[0].0 == key {
        Some(m[0].1)
    } else {
        member_of(m.drop_first(), key)
    }
}

/// `Value::get(key)`: the member of an object; nothing for other values.
pub open spec fn jget(v: JsonView, key: Seq<char>) -> Option<JsonView> {
    match v {
        JsonView::Object(m) => member_of(m, key),
        _ => None,
    }
}

/// The value of member `key` of an object.
pub fn json_get<'a>(v: &'a Json, key: &str) -> (r: Option<&'a Json>)
    ensures
        match jget(jview(*v), key@) {
            Some(x) => r matches Some(j) && jview(*j) == x,
            None => r is None,
        },
{
    match v {
        Json::Object(m) => {
            let ghost mv = jview(*v)->Object_0;
            let mut i: usize = 0;
            assert(mv.skip(0) =~= mv);
            while i < m.len()
                invariant
                    i <= m.len(),
                    *v == Json::Object(*m),
                    mv == jview(*v)->Object_0,
                    mv.len() == m@.len(),
                    member_of(mv.skip(i as int), key@) == member_of(mv, key@),
                decreases m.len() - i,
            {
                proof {
                    assert(mv.skip(i as int).drop_first() =~= mv.skip(i + 1));
                    assert(mv.skip(i as int)[0] == mv[i as int]);
                }
                if str_eq(m[i].0.as_str(), key) {
                    return Some(&m[i].1);
                }
                i += 1;
            }
            proof {
                assert(mv.skip(i as int).len() == 0);
            }
            None
        },
        _ => None,
    }
}

// ── Keybindings ─────────────────────────────────────────────────────────────

/// Known narration keybindings (both platforms, for detection and removal).
pub open spec fn narration_keys() -> Seq<Seq<char>> {
    seq!["cmd-:"@, "cmd-;"@, "cmd-{"@, "cmd-}"@, "super-:"@, "super-;"@, "super-{"@, "super-}"@]
}

fn narration_key_list() -> (r: Vec<&'static str>)
    ensures
        r@.len() == narration_keys().len(),
        forall|i: int| 0 <= i < r@.len() ==> #[trigger] r@[i]@ == narration_keys()[i],
{
    vec!["cmd-:", "cmd-;", "cmd-{", "cmd-}", "super-:", "super-;", "super-{", "super-}"]
}

/// Platform-appropriate modifier for Zed keybindings: Zed's `cmd` is
/// Command on macOS; on Linux it must be `super`.
pub fn platform_modifier(is_macos: bool) -> (r: &'static str)
    ensures
        r@ == platform_modifier_spec(is_macos),
{
    if is_macos {
        "cmd"
    } else {
        "super"
    }
}

/// An array whose first element is the string `task::Spawn`.
pub open spec fn spawn_action(v: JsonView) -> bool {
    match v {
        JsonView::Array(a) => a.len() > 0 && a[0] == JsonView::Str("task::Spawn"@),
        _ => false,
    }
}

fn is_spawn_action(v: &Json) -> (r: bool)
    ensures
        r == spawn_action(jview(*v)),
{
    match v {
        Json::Array(a) => {
            if a.len() == 0 {
                return false;
            }
            assert(jview(*v)->Array_0[0] == jview(a@[0]));
            match &a[0] {
                Json::Str(s) => {
                    assert(jview(a@[0]) == JsonView::Str(s@));
                    str_eq(s.as_str(), "task::Spawn")
                },
                _ => false,
            }
        },
        _ => false,
    }
}

/// Whether a keymap entry is solely a narration keybinding: its bindings
/// object has exactly one member, and one of the narration keys is bound to
/// a `task::Spawn` action.
pub open spec fn narration_binding(entry: JsonView) -> bool {
    match jget(entry, "bindings"@) {
        Some(JsonView::Object(b)) => b.len() == 1 && exists|k: int|
            0 <= k < narration_keys().len() && (member_of(b, #[trigger] narration_keys()[k]) matches Some(
                a,
            ) && spawn_action(a)),
        _ => false,
    }
}

/// Check whether a keymap entry is solely our narration keybinding.
pub fn is_narration_keybinding(entry: &Json) -> (r: bool)
    ensures
        r == narration_binding(jview(*entry)),
{
    let bindings = match json_get(entry, "bindings") {
        Some(b) => b,
        None => return false,
    };
    let len = match bindings {
        Json::Object(m) => {
            assert(jview(*bindings)->Object_0.len() == m@.len());
            m.len()
        },
        _ => return false,
    };
    if len != 1 {
        return false;
    }
    let keys = narration_key_list();
    let mut k: usize = 0;
    while k < keys.len()
        invariant
            k <= keys.len(),
            keys@.len() == narration_keys().len(),
            forall|i: int| 0 <= i < keys@.len() ==> #[trigger] keys@[i]@ == narration_keys()[i],
            jget(jview(*entry), "bindings"@) == Some(jview(*bindings)),
            jview(*bindings) is Object,
            jview(*bindings)->Object_0.len() == 1,
            forall|i: int|
                0 <= i < k ==> !(jget(jview(*bindings), #[trigger] narration_keys()[i]) matches Some(
                    a,
                ) && spawn_action(a)),
        decreases keys.len() - k,
    {
        match json_get(bindings, keys[k]) {
            Some(a) => {
                if is_spawn_action(a) {
                    assert(member_of(jview(*bindings)->Object_0, narration_keys()[k as int]) matches Some(
                        x,
                    ) && spawn_action(x));
                    return true;
                }
            },
            None => {},
        }
        k += 1;
    }
    false
}

/// The task names of the `task::Spawn` bindings of a keymap entry, in order.
pub open spec fn spawned_tasks(bindings: Seq<(Seq<char>, JsonView)>) -> Seq<Seq<char>>
    decreases bindings.len(),
{
    if bindings.len() == 0 {
        Seq::empty()
    } else {
        spawned_tasks(bindings.drop_last()) + match bindings.last().1 {
            JsonView::Array(a) => if spawn_action(JsonView::Array(a)) && a.len() > 1 {
                match jget(a[1], "task_name"@) {
                    Some(JsonView::Str(n)) => seq![n],
                    _ => Seq::empty(),
                }
            } else {
                Seq::empty()
            },
            _ => Seq::empty(),
        }
    }
}

/// The task names bound in a keymap entry.
pub open spec fn bound_tasks(entry: JsonView) -> Seq<Seq<char>> {
    match jget(entry, "bindings"@) {
        Some(JsonView::Object(b)) => spawned_tasks(b),
        _ => Seq::empty(),
    }
}

/// The task names of the `task::Spawn` bindings of a keymap entry.
pub fn bound_task_names(entry: &Json) -> (r: Vec<String>)
    ensures
        string_views(r@) == bound_tasks(jview(*entry)),
{
    let mut out: Vec<String> = Vec::new();
    let bindings = match json_get(entry, "bindings") {
        Some(b) => b,
        None => return out,
    };
    let m = match bindings {
        Json::Object(m) => m,
        _ => {
            assert(string_views(out@) =~= Seq::<Seq<char>>::empty());
            return out;
        },
    };
    let ghost bv = jview(*bindings)->Object_0;
    let mut i: usize = 0;
    while i < m.len()
        invariant
            i <= m.len(),
            *bindings == Json::Object(*m),
            bv == jview(*bindings)->Object_0,
            bv.len() == m@.len(),
            string_views(out@) == spawned_tasks(bv.take(i as int)),
        decreases m.len() - i,
    {
        proof {
            assert(bv.take(i + 1).drop_last() =~= bv.take(i as int));
            assert(bv[i as int].1 == jview(m@[i as int].1));
        }
        let ghost o0 = out@;
        let v = &m[i].1;
        if is_spawn_action(v) {
            match v {
                Json::Array(a) => {
                    if a.len() > 1 {
                        assert(jview(*v)->Array_0[1] == jview(a@[1]));
                        match json_get(&a[1], "task_name") {
                            Some(Json::Str(n)) => {
                                out.push(n.clone());
                                assert(string_views(out@) =~= string_views(o0).push(n@));
                            },
                            _ => {},
                        }
                    }
                },
                _ => {},
            }
        }
        i += 1;
    }
    assert(bv.take(m.len() as int) =~= bv);
    out
}

/// Some entry binds the task `task`.
pub open spec fn task_bound(elements: Seq<JsonView>, task: Seq<char>) -> bool {
    exists|i: int| 0 <= i < elements.len() && #[trigger] bound_tasks(elements[i]).contains(task)
}

/// Some entry binds the key `key`.
pub open spec fn key_bound(elements: Seq<JsonView>, key: Seq<char>) -> bool {
    exists|i: int|
        0 <= i < elements.len() && (match #[trigger] jget(elements[i], "bindings"@) {
            Some(JsonView::Object(b)) => member_of(b, key) is Some,
            _ => false,
        })
}

/// The keymap entry binding `key` to spawn the task `task`.
pub open spec fn binding_entry(key: Seq<char>, task: Seq<char>) -> JsonView {
    JsonView::Object(
        seq![
            (
                "bindings"@,
                JsonView::Object(
                    seq![
                        (
                            key,
                            JsonView::Array(
                                seq![
                                    JsonView::Str("task::Spawn"@),
                                    JsonView::Object(seq![("task_name"@, JsonView::Str(task))]),
                                ],
                            ),
                        ),
                    ],
                ),
            ),
        ],
    )
}

fn contains_string(v: &Vec<String>, s: &str) -> (r: bool)
    ensures
        r == string_views(v@).contains(s@),
{
    let mut i: usize = 0;
    while i < v.len()
        invariant
            i <= v.len(),
            forall|k: int| 0 <= k < i ==> v@[k]@ != s@,
        decreases v.len() - i,
    {
        if str_eq(v[i].as_str(), s) {
            assert(string_views(v@)[i as int] == s@);
            return true;
        }
        i += 1;
    }
    proof {
        if string_views(v@).contains(s@) {
            let k = choose|k: int| 0 <= k < string_views(v@).len() && string_views(v@)[k] == s@;
            assert(v@[k]@ == s@);
        }
    }
    false
}

/// The keybinding to add so that `key` spawns the task `task_name`: none when
/// the task is already bound to some key (the user may have reassigned it)
/// or the key is already bound to something else.
pub fn keybinding_to_install(elements: &Vec<Json>, key: &str, task_name: &str) -> (r: Option<Json>)
    ensures
        match r {
            None => task_bound(jviews(elements@), task_name@) || key_bound(jviews(elements@), key@),
            Some(e) => !task_bound(jviews(elements@), task_name@) && !key_bound(
                jviews(elements@),
                key@,
            ) && jview(e) == binding_entry(key@, task_name@),
        },
{
    let ghost ev = jviews(elements@);
    let mut i: usize = 0;
    while i < elements.len()
        invariant
            i <= elements.len(),
            ev == jviews(elements@),
            forall|k: int| 0 <= k < i ==> !#[trigger] bound_tasks(ev[k]).contains(task_name@),
        decreases elements.len() - i,
    {
        let names = bound_task_names(&elements[i]);
        if contains_string(&names, task_name) {
            assert(bound_tasks(ev[i as int]).contains(task_name@));
            return None;
        }
        i += 1;
    }
    let mut j: usize = 0;
    while j < elements.len()
        invariant
            j <= elements.len(),
            ev == jviews(elements@),
            !task_bound(ev, task_name@),
            forall|k: int|
                0 <= k < j ==> !(match #[trigger] jget(ev[k], "bindings"@) {
                    Some(JsonView::Object(b)) => member_of(b, key@) is Some,
                    _ => false,
                }),
        decreases elements.len() - j,
    {
        match json_get(&elements[j], "bindings") {
            Some(b) => {
                match b {
                    Json::Object(_) => {
                        if json_get(b, key).is_some() {
                            assert(ev[j as int] == jview(elements@[j as int]));
                            assert(jget(ev[j as int], "bindings"@) == Some(jview(*b)));
                            assert(member_of(jview(*b)->Object_0, key@) is Some);
                            assert(key_bound(ev, key@));
                            return None;
                        }
                    },
                    _ => {},
                }
            },
            None => {},
        }
        j += 1;
    }
    let spawn = Json::Str("task::Spawn".to_string());
    let tname = Json::Str(task_name.to_string());
    let ghost tv = jview(tname);
    assert(tv == JsonView::Str(task_name@));
    let task_obj = Json::Object(vec![("task_name".to_string(), tname)]);
    let ghost tov = jview(task_obj);
    assert(tov->Object_0 =~= seq![("task_name"@, JsonView::Str(task_name@))]);
    let ghost sv = jview(spawn);
    assert(sv == JsonView::Str("task::Spawn"@));
    let action = Json::Array(vec![spawn, task_obj]);
    let ghost av = jview(action);
    assert(av->Array_0 =~= seq![JsonView::Str("task::Spawn"@), tov]);
    let inner = Json::Object(vec![(key.to_string(), action)]);
    let ghost iv = jview(inner);
    assert(iv->Object_0 =~= seq![(key@, av)]);
    let entry = Json::Object(vec![("bindings".to_string(), inner)]);
    assert(jview(entry)->Object_0 =~= seq![("bindings"@, iv)]);
    assert(jview(entry) == binding_entry(key@, task_name@));
    Some(entry)
}

/// Which keymap entries are kept when the narration keybindings are removed.
pub open spec fn keybinding_mask(elements: Seq<JsonView>) -> Seq<bool> {
    Seq::new(elements.len(), |i: int| !narration_binding(elements[i]))
}

proof fn lemma_jviews_keep(s: Seq<Json>, keep: Seq<bool>)
    ensures
        jviews(keep_seq(s, keep)) == keep_seq(jviews(s), keep),
    decreases s.len(),
{
    if s.len() > 0 {
        lemma_jviews_keep(s.drop_last(), keep);
        assert(jviews(s).drop_last() =~= jviews(s.drop_last()));
        let r = keep_seq(s.drop_last(), keep);
        assert(jviews(r.push(s.last())) =~= jviews(r).push(jview(s.last())));
    } else {
        assert(jviews(keep_seq(s, keep)) =~= keep_seq(jviews(s), keep));
    }
}

/// Remove the narration keybindings from a keymap; also says whether any
/// entry was removed.
pub fn remove_narration_keybindings(elements: Vec<Json>) -> (r: (Vec<Json>, bool))
    ensures
        jviews(r.0@) == keep_seq(jviews(elements@), keybinding_mask(jviews(elements@))),
        r.1 == exists|i: int| 0 <= i < elements@.len() && #[trigger] narration_binding(jview(elements@[i])),
{
    let ghost ev = jviews(elements@);
    let mut keep: Vec<bool> = Vec::new();
    let mut removed = false;
    let mut i: usize = 0;
    while i < elements.len()
        invariant
            i <= elements.len(),
            ev == jviews(elements@),
            keep@.len() == i,
            forall|k: int| 0 <= k < i ==> keep@[k] == !narration_binding(ev[k]),
            removed == exists|k: int| 0 <= k < i && #[trigger] narration_binding(jview(elements@[k])),
        decreases elements.len() - i,
    {
        let b = is_narration_keybinding(&elements[i]);
        keep.push(!b);
        if b {
            removed = true;
        }
        i += 1;
    }
    assert(keep@ =~= keybinding_mask(ev));
    let ghost es = elements@;
    let kept = crate::merge::retain_flagged(elements, &keep);
    proof {
        lemma_jviews_keep(es, keep@);
    }
    (kept, removed)
}

// ── Tasks ───────────────────────────────────────────────────────────────────

/// Narration task labels.
pub open spec fn narration_labels() -> Seq<Seq<char>> {
    seq![
        "attend: toggle narration"@,
        "attend: start narration"@,
        "attend: pause narration"@,
        "attend: yank narration"@,
    ]
}

fn narration_label_list() -> (r: Vec<&'static str>)
    ensures
        r@.len() == narration_labels().len(),
        forall|i: int| 0 <= i < r@.len() ==> #[trigger] r@[i]@ == narration_labels()[i],
{
    vec![
        "attend: toggle narration",
        "attend: start narration",
        "attend: pause narration",
        "attend: yank narration",
    ]
}

/// The label of a task, when it is a string.
pub open spec fn label_of(t: JsonView) -> Option<Seq<char>> {
    match jget(t, "label"@) {
        Some(JsonView::Str(l)) => Some(l),
        _ => None,
    }
}

/// The command of a task, when it is a string.
pub open spec fn command_of(t: JsonView) -> Option<Seq<char>> {
    match jget(t, "command"@) {
        Some(JsonView::Str(c)) => Some(c),
        _ => None,
    }
}

fn str_member(t: &Json, key: &str) -> (r: Option<String>)
    ensures
        match jget(jview(*t), key@) {
            Some(JsonView::Str(s)) => r matches Some(x) && x@ == s,
            _ => r is None,
        },
{
    match json_get(t, key) {
        Some(Json::Str(s)) => Some(s.clone()),
        _ => None,
    }
}

/// Strings as JSON values.
pub open spec fn str_values(args: Seq<Seq<char>>) -> Seq<JsonView> {
    args.map_values(|a: Seq<char>| JsonView::Str(a))
}

/// The task definition that runs `bin_cmd` with `args` under `label`
/// (members in key order).
pub open spec fn task_entry_spec(bin_cmd: Seq<char>, label: Seq<char>, args: Seq<Seq<char>>) -> JsonView {
    JsonView::Object(
        seq![
            ("allow_concurrent_runs"@, JsonView::Bool(false)),
            ("args"@, JsonView::Array(str_values(args))),
            ("command"@, JsonView::Str(bin_cmd)),
            ("hide"@, JsonView::Str("always"@)),
            ("label"@, JsonView::Str(label)),
            ("reveal"@, JsonView::Str("never"@)),
            ("use_new_terminal"@, JsonView::Bool(true)),
        ],
    )
}

/// The task definition that runs `bin_cmd` with `args` under `label`.
pub fn task_entry(bin_cmd: &str, label: &str, args: &Vec<String>) -> (r: Json)
    ensures
        jview(r) == task_entry_spec(bin_cmd@, label@, string_views(args@)),
{
    let mut arr: Vec<Json> = Vec::new();
    let ghost av = string_views(args@);
    let mut i: usize = 0;
    while i < args.len()
        invariant
            i <= args.len(),
            av == string_views(args@),
            jviews(arr@) == str_values(av.take(i as int)),
        decreases args.len() - i,
    {
        let ghost a0 = arr@;
        let item = Json::Str(args[i].clone());
        assert(jview(item) == JsonView::Str(av[i as int]));
        arr.push(item);
        assert(jviews(arr@) =~= jviews(a0).push(JsonView::Str(av[i as int])));
        assert(str_values(av.take(i + 1)) =~= str_values(av.take(i as int)).push(
            JsonView::Str(av[i as int]),
        ));
        i += 1;
    }
    assert(av.take(args.len() as int) =~= av);
    let arr_json = Json::Array(arr);
    assert(jview(arr_json)->Array_0 =~= jviews(arr@));
    let ghost arv = jview(arr_json);
    let f0 = Json::Bool(false);
    let f2 = Json::Str(bin_cmd.to_string());
    let f3 = Json::Str("always".to_string());
    let f4 = Json::Str(label.to_string());
    let f5 = Json::Str("never".to_string());
    let f6 = Json::Bool(true);
    assert(jview(f0) == JsonView::Bool(false));
    assert(jview(f2) == JsonView::Str(bin_cmd@));
    assert(jview(f3) == JsonView::Str("always"@));
    assert(jview(f4) == JsonView::Str(label@));
    assert(jview(f5) == JsonView::Str("never"@));
    assert(jview(f6) == JsonView::Bool(true));
    let entry = Json::Object(
        vec![
            ("allow_concurrent_runs".to_string(), f0),
            ("args".to_string(), arr_json),
            ("command".to_string(), f2),
            ("hide".to_string(), f3),
            ("label".to_string(), f4),
            ("reveal".to_string(), f5),
            ("use_new_terminal".to_string(), f6),
        ],
    );
    assert(jview(entry)->Object_0 =~= task_entry_spec(bin_cmd@, label@, av)->Object_0);
    entry
}

/// Which tasks are kept when the tasks labelled `label` are replaced.
pub open spec fn other_label_mask(tasks: Seq<JsonView>, label: Seq<char>) -> Seq<bool> {
    Seq::new(tasks.len(), |i: int| label_of(tasks[i]) != Some(label))
}

/// The command of the first task labelled `label`, if it has one.
pub open spec fn first_label_command(tasks: Seq<JsonView>, label: Seq<char>) -> Option<Seq<char>>
    decreases tasks.len(),
{
    if tasks.len() == 0 {
        None
    } else if label_of(tasks[0]) == Some(label) {
        command_of(tasks[0])
    } else {
        first_label_command(tasks.drop_first(), label)
    }
}

/// What installing a task does to a task list.
pub struct TaskInstall {
    /// The new task list; `None` when the exact task is already there.
    pub tasks: Option<Vec<Json>>,
    /// The command of the task being replaced, to check for a stale path.
    pub replaced_command: Option<String>,
}

/// Install the task definition that runs `bin_cmd` with `args` under `label`:
/// nothing changes when the exact definition is present; otherwise the
/// tasks with that label are replaced by it, at the end.
pub fn install_task(elements: Vec<Json>, bin_cmd: &str, label: &str, args: &Vec<String>) -> (r: TaskInstall)
    ensures
        ({
            let ev = jviews(elements@);
            let entry = task_entry_spec(bin_cmd@, label@, string_views(args@));
            if ev.contains(entry) {
                r.tasks is None && r.replaced_command is None
            } else {
                &&& r.tasks matches Some(t) && jviews(t@) == keep_seq(ev, other_label_mask(ev, label@)).push(entry)
                &&& match first_label_command(ev, label@) {
                    Some(c) => r.replaced_command matches Some(x) && x@ == c,
                    None => r.replaced_command is None,
                }
            }
        }),
{
    let ghost ev = jviews(elements@);
    let entry = task_entry(bin_cmd, label, args);
    let mut i: usize = 0;
    while i < elements.len()
        invariant
            i <= elements.len(),
            ev == jviews(elements@),
            jview(entry) == task_entry_spec(bin_cmd@, label@, string_views(args@)),
            forall|k: int| 0 <= k < i ==> ev[k] != jview(entry),
        decreases elements.len() - i,
    {
        if json_eq(&elements[i], &entry) {
            assert(ev[i as int] == jview(entry));
            assert(ev.contains(jview(entry)));
            return TaskInstall { tasks: None, replaced_command: None };
        }
        i += 1;
    }
    proof {
        if ev.contains(jview(entry)) {
            let k = choose|k: int| 0 <= k < ev.len() && ev[k] == jview(entry);
            assert(ev[k] != jview(entry));
        }
    }
    let mut replaced: Option<String> = None;
    let mut found = false;
    let mut keep: Vec<bool> = Vec::new();
    let mut j: usize = 0;
    assert(ev.skip(0) =~= ev);
    while j < elements.len()
        invariant
            j <= elements.len(),
            ev == jviews(elements@),
            keep@.len() == j,
            forall|k: int| 0 <= k < j ==> keep@[k] == other_label_mask(ev, label@)[k],
            !found ==> first_label_command(ev.skip(j as int), label@) == first_label_command(ev, label@),
            !found ==> replaced is None,
            found ==> match first_label_command(ev, label@) {
                Some(c) => replaced matches Some(x) && x@ == c,
                None => replaced is None,
            },
        decreases elements.len() - j,
    {
        proof {
            assert(ev.skip(j as int).drop_first() =~= ev.skip(j + 1));
            assert(ev.skip(j as int)[0] == ev[j as int]);
        }
        let l = str_member(&elements[j], "label");
        let same = match &l {
            Some(x) => str_eq(x.as_str(), label),
            None => false,
        };
        assert(same == (label_of(ev[j as int]) == Some(label@)));
        if same && !found {
            replaced = str_member(&elements[j], "command");
            found = true;
        }
        keep.push(!same);
        j += 1;
    }
    proof {
        if !found {
            assert(ev.skip(j as int).len() == 0);
        }
    }
    assert(keep@ =~= other_label_mask(ev, label@));
    let ghost es = elements@;
    let mut kept = crate::merge::retain_flagged(elements, &keep);
    proof {
        lemma_jviews_keep(es, keep@);
    }
    let ghost k0 = kept@;
    let ghost e0 = jview(entry);
    kept.push(entry);
    assert(jviews(kept@) =~= jviews(k0).push(e0));
    TaskInstall { tasks: Some(kept), replaced_command: replaced }
}

/// A task labelled with one of the narration labels.
pub open spec fn narration_task(t: JsonView) -> bool {
    label_of(t) matches Some(l) && narration_labels().contains(l)
}

/// Which tasks survive the removal of the narration tasks.
pub open spec fn narration_task_mask(tasks: Seq<JsonView>) -> Seq<bool> {
    Seq::new(tasks.len(), |i: int| !narration_task(tasks[i]))
}

fn is_narration_task(t: &Json) -> (r: bool)
    ensures
        r == narration_task(jview(*t)),
{
    let l = match str_member(t, "label") {
        Some(l) => l,
        None => return false,
    };
    let labels = narration_label_list();
    let mut k: usize = 0;
    while k < labels.len()
        invariant
            k <= labels.len(),
            labels@.len() == narration_labels().len(),
            forall|i: int| 0 <= i < labels@.len() ==> #[trigger] labels@[i]@ == narration_labels()[i],
            forall|i: int| 0 <= i < k ==> narration_labels()[i] != l@,
            label_of(jview(*t)) == Some(l@),
        decreases labels.len() - k,
    {
        if str_eq(labels[k], l.as_str()) {
            assert(narration_labels()[k as int] == l@);
            assert(narration_labels().contains(l@));
            return true;
        }
        k += 1;
    }
    proof {
        if narration_labels().contains(l@) {
            let i = choose|i: int| 0 <= i < narration_labels().len() && narration_labels()[i] == l@;
            assert(narration_labels()[i] != l@);
        }
    }
    false
}

/// Remove the narration task definitions; also says whether any was removed.
pub fn remove_narration_tasks(elements: Vec<Json>) -> (r: (Vec<Json>, bool))
    ensures
        jviews(r.0@) == keep_seq(jviews(elements@), narration_task_mask(jviews(elements@))),
        r.1 == exists|i: int| 0 <= i < elements@.len() && #[trigger] narration_task(jview(elements@[i])),
{
    let ghost ev = jviews(elements@);
    let mut keep: Vec<bool> = Vec::new();
    let mut removed = false;
    let mut i: usize = 0;
    while i < elements.len()
        invariant
            i <= elements.len(),
            ev == jviews(elements@),
            keep@.len() == i,
            forall|k: int| 0 <= k < i ==> keep@[k] == !narration_task(ev[k]),
            removed == exists|k: int| 0 <= k < i && #[trigger] narration_task(jview(elements@[k])),
        decreases elements.len() - i,
    {
        let b = is_narration_task(&elements[i]);
        keep.push(!b);
        if b {
            removed = true;
        }
        i += 1;
    }
    assert(keep@ =~= narration_task_mask(ev));
    let ghost es = elements@;
    let kept = crate::merge::retain_flagged(elements, &keep);
    proof {
        lemma_jviews_keep(es, keep@);
    }
    (kept, removed)
}


// ── Health check ────────────────────────────────────────────────────────────

/// The advice that ends the health warnings.
pub open spec fn reinstall_advice() -> Seq<char> {
    "run `attend install --editor zed`"@
}

/// The first task labelled `label`.
pub open spec fn first_with_label(tasks: Seq<JsonView>, label: Seq<char>) -> Option<JsonView>
    decreases tasks.len(),
{
    if tasks.len() == 0 {
        None
    } else if label_of(tasks[0]) == Some(label) {
        Some(tasks[0])
    } else {
        first_with_label(tasks.drop_first(), label)
    }
}

/// The warning for one narration task: it is missing, or its command does
/// not exist (by `existing`, the commands found on disk or on PATH).
pub open spec fn label_warning(tasks: Seq<JsonView>, label: Seq<char>, existing: Seq<Seq<char>>) -> Seq<Seq<char>> {
    match first_with_label(tasks, label) {
        None => seq![label + " task not found: "@ + reinstall_advice()],
        Some(t) => match command_of(t) {
            Some(c) => if existing.contains(c) {
                Seq::empty()
            } else {
                seq!["task command path does not exist: "@ + c + ": reinstall with "@ + reinstall_advice()]
            },
            None => Seq::empty(),
        },
    }
}

/// The warnings for the narration tasks, label by label.
pub open spec fn label_warnings(tasks: Seq<JsonView>, labels: Seq<Seq<char>>, existing: Seq<Seq<char>>) -> Seq<Seq<char>>
    decreases labels.len(),
{
    if labels.len() == 0 {
        Seq::empty()
    } else {
        label_warnings(tasks, labels.drop_last(), existing) + label_warning(tasks, labels.last(), existing)
    }
}

/// The health warnings of the Zed narration integration (empty when healthy).
pub open spec fn health_warnings(
    tasks: Seq<JsonView>,
    tasks_exists: bool,
    keymap: Seq<JsonView>,
    keymap_exists: bool,
    existing: Seq<Seq<char>>,
) -> Seq<Seq<char>> {
    (if tasks.len() == 0 && !tasks_exists {
        seq!["tasks.json not found: "@ + reinstall_advice()]
    } else {
        label_warnings(tasks, narration_labels(), existing)
    }) + (if keymap.len() == 0 && !keymap_exists {
        seq!["keymap.json not found: "@ + reinstall_advice()]
    } else if !(exists|i: int| 0 <= i < keymap.len() && #[trigger] narration_binding(keymap[i])) {
        seq!["narration keybinding not found: "@ + reinstall_advice()]
    } else {
        Seq::empty()
    })
}

fn find_with_label<'a>(tasks: &'a Vec<Json>, label: &str) -> (r: Option<&'a Json>)
    ensures
        match first_with_label(jviews(tasks@), label@) {
            None => r is None,
            Some(t) => r matches Some(j) && jview(*j) == t,
        },
{
    let ghost tv = jviews(tasks@);
    let mut i: usize = 0;
    assert(tv.skip(0) =~= tv);
    while i < tasks.len()
        invariant
            i <= tasks.len(),
            tv == jviews(tasks@),
            first_with_label(tv.skip(i as int), label@) == first_with_label(tv, label@),
        decreases tasks.len() - i,
    {
        proof {
            assert(tv.skip(i as int).drop_first() =~= tv.skip(i + 1));
            assert(tv.skip(i as int)[0] == tv[i as int]);
        }
        let l = str_member(&tasks[i], "label");
        let same = match &l {
            Some(x) => str_eq(x.as_str(), label),
            None => false,
        };
        if same {
            return Some(&tasks[i]);
        }
        i += 1;
    }
    proof {
        assert(tv.skip(i as int).len() == 0);
    }
    None
}

/// Check the health of the installed Zed narration integration, given the
/// task and keymap files (their entries, and whether they exist) and the
/// task commands that exist. Returns the warnings (empty when healthy).
pub fn check_narration_health(
    tasks: &Vec<Json>,
    tasks_exists: bool,
    keymap: &Vec<Json>,
    keymap_exists: bool,
    existing_commands: &Vec<String>,
) -> (r: Vec<String>)
    ensures
        string_views(r@) == health_warnings(
            jviews(tasks@),
            tasks_exists,
            jviews(keymap@),
            keymap_exists,
            string_views(existing_commands@),
        ),
{
    let ghost tv = jviews(tasks@);
    let ghost ex = string_views(existing_commands@);
    let mut warnings: Vec<String> = Vec::new();
    if tasks.len() == 0 && !tasks_exists {
        let mut w = String::new();
        push_str(&mut w, "tasks.json not found: ");
        push_str(&mut w, "run `attend install --editor zed`");
        warnings.push(w);
        assert(string_views(warnings@) =~= seq!["tasks.json not found: "@ + reinstall_advice()]);
    } else {
        let labels = narration_label_list();
        let mut k: usize = 0;
        while k < labels.len()
            invariant
                k <= labels.len(),
                labels@.len() == narration_labels().len(),
                forall|i: int| 0 <= i < labels@.len() ==> #[trigger] labels@[i]@ == narration_labels()[i],
                tv == jviews(tasks@),
                ex == string_views(existing_commands@),
                string_views(warnings@) == label_warnings(tv, narration_labels().take(k as int), ex),
            decreases labels.len() - k,
        {
            let ghost w0 = string_views(warnings@);
            let label = labels[k];
            proof {
                assert(narration_labels().take(k + 1).drop_last() =~= narration_labels().take(k as int));
                assert(narration_labels().take(k + 1).last() == label@);
            }
            match find_with_label(tasks, label) {
                None => {
                    let mut w = String::new();
                    push_str(&mut w, label);
                    push_str(&mut w, " task not found: ");
                    push_str(&mut w, "run `attend install --editor zed`");
                    warnings.push(w);
                    assert(string_views(warnings@) =~= w0 + label_warning(tv, label@, ex));
                },
                Some(t) => {
                    match str_member(t, "command") {
                        Some(cmd) => {
                            if !contains_string(existing_commands, cmd.as_str()) {
                                let mut w = String::new();
                                push_str(&mut w, "task command path does not exist: ");
                                push_str(&mut w, cmd.as_str());
                                push_str(&mut w, ": reinstall with ");
                                push_str(&mut w, "run `attend install --editor zed`");
                                warnings.push(w);
                                assert(string_views(warnings@) =~= w0 + label_warning(tv, label@, ex));
                            } else {
                                assert(string_views(warnings@) =~= w0 + label_warning(tv, label@, ex));
                            }
                        },
                        None => {
                            assert(string_views(warnings@) =~= w0 + label_warning(tv, label@, ex));
                        },
                    }
                },
            }
            k += 1;
        }
        assert(narration_labels().take(labels.len() as int) =~= narration_labels());
    }
    let ghost w1 = string_views(warnings@);
    let ghost kv = jviews(keymap@);
    if keymap.len() == 0 && !keymap_exists {
        let mut w = String::new();
        push_str(&mut w, "keymap.json not found: ");
        push_str(&mut w, "run `attend install --editor zed`");
        warnings.push(w);
        assert(string_views(warnings@) =~= w1 + seq!["keymap.json not found: "@ + reinstall_advice()]);
    } else {
        let mut found = false;
        let mut i: usize = 0;
        while i < keymap.len() && !found
            invariant
                i <= keymap.len(),
                kv == jviews(keymap@),
                found ==> exists|m: int| 0 <= m < kv.len() && #[trigger] narration_binding(kv[m]),
                !found ==> forall|m: int| 0 <= m < i ==> !#[trigger] narration_binding(kv[m]),
            decreases keymap.len() - i,
        {
            if is_narration_keybinding(&keymap[i]) {
                assert(narration_binding(kv[i as int]));
                found = true;
            }
            i += 1;
        }
        if !found {
            let mut w = String::new();
            push_str(&mut w, "narration keybinding not found: ");
            push_str(&mut w, "run `attend install --editor zed`");
            warnings.push(w);
            assert(string_views(warnings@) =~= w1 + seq![
                "narration keybinding not found: "@ + reinstall_advice(),
            ]);
        } else {
            assert(string_views(warnings@) =~= w1 + Seq::<Seq<char>>::empty());
        }
    }
    warnings
}

/// The narration tasks to install: label and arguments of the command.
pub open spec fn narration_task_specs() -> Seq<(Seq<char>, Seq<Seq<char>>)> {
    seq![
        ("attend: toggle narration"@, seq!["narrate"@, "toggle"@]),
        ("attend: start narration"@, seq!["narrate"@, "start"@]),
        ("attend: pause narration"@, seq!["narrate"@, "pause"@]),
        ("attend: yank narration"@, seq!["narrate"@, "yank"@]),
    ]
}

/// The narration tasks that installing the integration defines, in order.
pub fn narration_tasks() -> (r: Vec<(String, Vec<String>)>)
    ensures
        r@.len() == narration_task_specs().len(),
        forall|i: int|
            0 <= i < r@.len() ==> #[trigger] r@[i].0@ == narration_task_specs()[i].0 && string_views(
                r@[i].1@,
            ) == narration_task_specs()[i].1,
{
    let mut out: Vec<(String, Vec<String>)> = Vec::new();
    let names: Vec<&'static str> = vec!["toggle", "start", "pause", "yank"];
    let labels = narration_label_list();
    let mut i: usize = 0;
    while i < 4
        invariant
            i <= 4,
            names@.len() == 4,
            names@[0]@ == "toggle"@,
            names@[1]@ == "start"@,
            names@[2]@ == "pause"@,
            names@[3]@ == "yank"@,
            labels@.len() == 4,
            forall|k: int| 0 <= k < labels@.len() ==> #[trigger] labels@[k]@ == narration_labels()[k],
            out@.len() == i,
            forall|k: int|
                0 <= k < i ==> #[trigger] out@[k].0@ == narration_task_specs()[k].0 && string_views(
                    out@[k].1@,
                ) == narration_task_specs()[k].1,
        decreases 4 - i,
    {
        let args: Vec<String> = vec!["narrate".to_string(), names[i].to_string()];
        proof {
            assert(string_views(args@) =~= narration_task_specs()[i as int].1);
            assert(narration_task_specs()[i as int].0 == narration_labels()[i as int]);
        }
        let label = labels[i].to_string();
        assert(label@ == narration_task_specs()[i as int].0);
        let ghost before = out@;
        out.push((label, args));
        assert(forall|k: int| 0 <= k < i ==> out@[k] == before[k]);
        i += 1;
    }
    out
}

/// The narration keybindings, for the platform's modifier: key and task label.
pub open spec fn narration_binding_specs(m: Seq<char>) -> Seq<(Seq<char>, Seq<char>)> {
    seq![
        (m + "-;"@, "attend: toggle narration"@),
        (m + "-:"@, "attend: start narration"@),
        (m + "-{"@, "attend: pause narration"@),
        (m + "-}"@, "attend: yank narration"@),
    ]
}

/// The narration keybindings that installing the integration adds, in order.
pub fn narration_keybindings(is_macos: bool) -> (r: Vec<(String, String)>)
    ensures
        r@.len() == 4,
        forall|i: int|
            0 <= i < 4 ==> #[trigger] r@[i].0@ == narration_binding_specs(
                platform_modifier_spec(is_macos),
            )[i].0 && r@[i].1@ == narration_binding_specs(platform_modifier_spec(is_macos))[i].1,
{
    let m = platform_modifier(is_macos);
    let suffixes: Vec<&'static str> = vec!["-;", "-:", "-{", "-}"];
    let labels = narration_label_list();
    let mut out: Vec<(String, String)> = Vec::new();
    let mut i: usize = 0;
    while i < 4
        invariant
            i <= 4,
            m@ == platform_modifier_spec(is_macos),
            suffixes@.len() == 4,
            suffixes@[0]@ == "-;"@,
            suffixes@[1]@ == "-:"@,
            suffixes@[2]@ == "-{"@,
            suffixes@[3]@ == "-}"@,
            labels@.len() == 4,
            forall|k: int| 0 <= k < labels@.len() ==> #[trigger] labels@[k]@ == narration_labels()[k],
            out@.len() == i,
            forall|k: int|
                0 <= k < i ==> #[trigger] out@[k].0@ == narration_binding_specs(
                    platform_modifier_spec(is_macos),
                )[k].0 && out@[k].1@ == narration_binding_specs(platform_modifier_spec(is_macos))[k].1,
        decreases 4 - i,
    {
        let mut key = m.to_string();
        push_str(&mut key, suffixes[i]);
        out.push((key, labels[i].to_string()));
        i += 1;
    }
    out
}

/// The keybinding modifier of the platform.
pub open spec fn platform_modifier_spec(is_macos: bool) -> Seq<char> {
    if is_macos {
        "cmd"@
    } else {
        "super"@
    }
}

// ── Backend ─────────────────────────────────────────────────────────────────

/// A backend that can query an editor for open files.
pub trait Editor {
    /// CLI name (e.g., "zed").
    fn name(&self) -> &'static str;
}

/// Zed editor backend: its open tabs come from Zed's SQLite database.
pub struct Zed;

impl Editor for Zed {
    fn name(&self) -> (r: &'static str)
        ensures
            r@ == "zed"@,
    {
        "zed"
    }
}

/// Look up an editor backend by CLI name.
pub fn editor_by_name(name: &str) -> (r: Option<Zed>)
    ensures
        r is Some <==> name@ == "zed"@,
{
    if str_eq(name, "zed") {
        Some(Zed)
    } else {
        None
    }
}

/// Raw editors returned from an editor backend.
#[derive(Debug, Clone)]
pub struct QueryResult {
    /// Active editor tabs with byte-offset selections.
    pub editors: Vec<RawEditor>,
}

/// The rows of every backend that reported, in backend order.
pub open spec fn merged_rows(results: Seq<Option<QueryResult>>) -> Seq<RawEditor>
    decreases results.len(),
{
    if results.len() == 0 {
        Seq::empty()
    } else {
        merged_rows(results.drop_last()) + match results.last() {
            Some(q) => q.editors@,
            None => Seq::empty(),
        }
    }
}

/// Merge the query results of all backends: the rows of those that
/// reported, or `None` when there are none.
pub fn query(results: Vec<Option<QueryResult>>) -> (r: Option<QueryResult>)
    ensures
        match r {
            None => merged_rows(results@).len() == 0,
            Some(q) => merged_rows(results@).len() > 0 && q.editors@ == merged_rows(results@),
        },
{
    let ghost rs = results@;
    let n = results.len();
    let mut editors: Vec<RawEditor> = Vec::new();
    let mut idx: usize = 0;
    for res in it: results
        invariant
            idx == it.index(),
            it.seq() == rs,
            rs.len() == n,
            editors@ == merged_rows(rs.take(idx as int)),
    {
        proof {
            assert(rs.take(idx + 1).drop_last() =~= rs.take(idx as int));
        }
        match res {
            Some(q) => {
                let mut more = q.editors;
                editors.append(&mut more);
            },
            None => {
                assert(editors@ =~= editors@ + Seq::<RawEditor>::empty());
            },
        }
        idx += 1;
    }
    assert(rs.take(n as int) =~= rs);
    if editors.len() == 0 {
        None
    } else {
        Some(QueryResult { editors })
    }
}


// ── Laws ────────────────────────────────────────────────────────────────────

/// Removing the narration keybindings leaves none of them and keeps every
/// other keymap entry.
pub proof fn law_keybinding_removal(ev: Seq<JsonView>)
    ensures
        forall|k: int|
            0 <= k < keep_seq(ev, keybinding_mask(ev)).len() ==> !narration_binding(
                #[trigger] keep_seq(ev, keybinding_mask(ev))[k],
            ),
        forall|i: int|
            0 <= i < ev.len() && !narration_binding(#[trigger] ev[i]) ==> keep_seq(
                ev,
                keybinding_mask(ev),
            ).contains(ev[i]),
{
    crate::merge::lemma_keep_seq_members(ev, keybinding_mask(ev));
}

/// Removing the narration tasks leaves none of them and keeps every other
/// task.
pub proof fn law_task_removal(ev: Seq<JsonView>)
    ensures
        forall|k: int|
            0 <= k < keep_seq(ev, narration_task_mask(ev)).len() ==> !narration_task(
                #[trigger] keep_seq(ev, narration_task_mask(ev))[k],
            ),
        forall|i: int|
            0 <= i < ev.len() && !narration_task(#[trigger] ev[i]) ==> keep_seq(
                ev,
                narration_task_mask(ev),
            ).contains(ev[i]),
{
    crate::merge::lemma_keep_seq_members(ev, narration_task_mask(ev));
}

proof fn lemma_task_entry_label(bin_cmd: Seq<char>, label: Seq<char>, args: Seq<Seq<char>>)
    ensures
        label_of(task_entry_spec(bin_cmd, label, args)) == Some(label),
{
    reveal_with_fuel(member_of, 6);
    reveal_strlit("allow_concurrent_runs");
    reveal_strlit("args");
    reveal_strlit("command");
    reveal_strlit("hide");
    reveal_strlit("label");
    let m = task_entry_spec(bin_cmd, label, args)->Object_0;
    assert(m[0].0 == "allow_concurrent_runs"@);
    assert(m[0].0.len() != "label"@.len());
    assert(m[1].0 == "args"@);
    assert(m[1].0.len() != "label"@.len());
    assert(m[2].0 != "label"@);
    assert(m[3].0 != "label"@);
    assert(m.drop_first()[0] == m[1]);
    assert(m.drop_first().drop_first()[0] == m[2]);
    assert(m.drop_first().drop_first().drop_first()[0] == m[3]);
    assert(m.drop_first().drop_first().drop_first().drop_first()[0] == m[4]);
}

/// Installing a task leaves exactly one task with its label, the new
/// definition, at the end; installing it again then changes nothing.
pub proof fn law_task_install(ev: Seq<JsonView>, bin_cmd: Seq<char>, label: Seq<char>, args: Seq<Seq<char>>)
    ensures
        ({
            let entry = task_entry_spec(bin_cmd, label, args);
            let t = keep_seq(ev, other_label_mask(ev, label)).push(entry);
            &&& t.contains(entry)
            &&& label_of(t.last()) == Some(label)
            &&& forall|i: int| 0 <= i < t.len() - 1 ==> label_of(#[trigger] t[i]) != Some(label)
        }),
{
    let entry = task_entry_spec(bin_cmd, label, args);
    let kept = keep_seq(ev, other_label_mask(ev, label));
    let t = kept.push(entry);
    crate::merge::lemma_keep_seq_members(ev, other_label_mask(ev, label));
    lemma_task_entry_label(bin_cmd, label, args);
    assert(t[t.len() - 1] == entry);
    assert forall|i: int| 0 <= i < t.len() - 1 implies label_of(#[trigger] t[i]) != Some(label) by {
        assert(t[i] == kept[i]);
        assert(crate::merge::flagged_in(ev, other_label_mask(ev, label), kept[i]));
        let j = choose|j: int| 0 <= j < ev.len() && other_label_mask(ev, label)[j] && ev[j] == kept[i];
    }
}


/// The key of an installed narration keybinding is one of the narration keys.
proof fn lemma_installed_key_listed(is_macos: bool, i: int) -> (k: int)
    requires
        0 <= i < 4,
    ensures
        0 <= k < narration_keys().len(),
        narration_keys()[k] == narration_binding_specs(platform_modifier_spec(is_macos))[i].0,
{
    reveal_strlit("cmd");
    reveal_strlit("super");
    reveal_strlit("-;");
    reveal_strlit("-:");
    reveal_strlit("-{");
    reveal_strlit("-}");
    reveal_strlit("cmd-:");
    reveal_strlit("cmd-;");
    reveal_strlit("cmd-{");
    reveal_strlit("cmd-}");
    reveal_strlit("super-:");
    reveal_strlit("super-;");
    reveal_strlit("super-{");
    reveal_strlit("super-}");
    let m = platform_modifier_spec(is_macos);
    let keys = narration_keys();
    let base: int = if is_macos { 0 } else { 4 };
    let k: int = if i == 0 { base + 1 } else if i == 1 { base } else { base + i };
    if is_macos {
        assert(m == "cmd"@);
        if i == 0 { assert(keys[1] =~= m + "-;"@); }
        else if i == 1 { assert(keys[0] =~= m + "-:"@); }
        else if i == 2 { assert(keys[2] =~= m + "-{"@); }
        else { assert(keys[3] =~= m + "-}"@); }
    } else {
        assert(m == "super"@);
        if i == 0 { assert(keys[5] =~= m + "-;"@); }
        else if i == 1 { assert(keys[4] =~= m + "-:"@); }
        else if i == 2 { assert(keys[6] =~= m + "-{"@); }
        else { assert(keys[7] =~= m + "-}"@); }
    }
    k
}

/// Every keybinding that installing the integration adds, on either
/// platform, is recognized as a narration keybinding, and removing the
/// narration keybindings from any keymap leaves no copy of it.
pub proof fn law_installed_bindings_removed(is_macos: bool, i: int, ev: Seq<JsonView>)
    requires
        0 <= i < 4,
    ensures
        ({
            let spec = narration_binding_specs(platform_modifier_spec(is_macos))[i];
            let entry = binding_entry(spec.0, spec.1);
            &&& narration_binding(entry)
            &&& !keep_seq(ev, keybinding_mask(ev)).contains(entry)
        }),
{
    let spec = narration_binding_specs(platform_modifier_spec(is_macos))[i];
    let entry = binding_entry(spec.0, spec.1);
    let k = lemma_installed_key_listed(is_macos, i);
    let b = jget(entry, "bindings"@)->Some_0->Object_0;
    assert(member_of(b, narration_keys()[k]) matches Some(a) && spawn_action(a));
    assert(narration_binding(entry));
    crate::merge::lemma_keep_seq_members(ev, keybinding_mask(ev));
    if keep_seq(ev, keybinding_mask(ev)).contains(entry) {
        let kept = keep_seq(ev, keybinding_mask(ev));
        let n = choose|n: int| 0 <= n < kept.len() && kept[n] == entry;
        assert(crate::merge::flagged_in(ev, keybinding_mask(ev), kept[n]));
        let j = choose|j: int| 0 <= j < ev.len() && keybinding_mask(ev)[j] && ev[j] == kept[n];
    }
}


/// Every task that installing the integration adds is recognized as a
/// narration task, and removing the narration tasks from any task list
/// leaves no copy of it.
pub proof fn law_installed_tasks_removed(bin_cmd: Seq<char>, i: int, ev: Seq<JsonView>)
    requires
        0 <= i < 4,
    ensures
        ({
            let spec = narration_task_specs()[i];
            let entry = task_entry_spec(bin_cmd, spec.0, spec.1);
            &&& narration_task(entry)
            &&& !keep_seq(ev, narration_task_mask(ev)).contains(entry)
        }),
{
    let spec = narration_task_specs()[i];
    let entry = task_entry_spec(bin_cmd, spec.0, spec.1);
    lemma_task_entry_label(bin_cmd, spec.0, spec.1);
    assert(narration_labels()[i] == spec.0);
    assert(narration_task(entry));
    crate::merge::lemma_keep_seq_members(ev, narration_task_mask(ev));
    if keep_seq(ev, narration_task_mask(ev)).contains(entry) {
        let kept = keep_seq(ev, narration_task_mask(ev));
        let n = choose|n: int| 0 <= n < kept.len() && kept[n] == entry;
        assert(crate::merge::flagged_in(ev, narration_task_mask(ev), kept[n]));
        let j = choose|j: int| 0 <= j < ev.len() && narration_task_mask(ev)[j] && ev[j] == kept[n];
    }
}

} // verus!
