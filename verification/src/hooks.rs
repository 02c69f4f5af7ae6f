//! Installing the hooks into the settings of an assistant, without touching what else they hold.
use crate::json;
use crate::text;
use vstd::prelude::*;
use vstd::string::*;

verus! {

/// The events that get a hook.
#[derive(Debug, Clone, Copy, PartialEq, Eq, Structural)]
pub enum Event {
    /// A session starts: print the coverage summary.
    SessionStart,
    /// A note was written: validate it.
    PostToolUse,
}

/// The key of an event.
pub open spec fn event_key(event: Event) -> Seq<char> {
    match event {
        Event::SessionStart => "SessionStart"@,
        Event::PostToolUse => "PostToolUse"@,
    }
}

/// What the hook of an event runs. The binary is named as it is found on the path: an absolute path
/// would break across users and machines where the settings are committed.
pub open spec fn event_command(event: Event) -> Seq<char> {
    match event {
        Event::SessionStart => "if [ -d .doctrack ]; then DOCTRACK_ROOT=\"$(pwd)\" doctrack-mcp --coverage 2>/dev/null; fi"@,
        Event::PostToolUse => "NOTE=$(cat | jq -r '.tool_input.path // empty'); if [ -n \"$NOTE\" ] && [ -d .doctrack ]; then DOCTRACK_ROOT=\"$(pwd)\" doctrack-mcp --validate-note \"$NOTE\" 2>/dev/null; fi"@,
    }
}

/// What is shown while the hook of an event runs.
pub open spec fn event_status(event: Event) -> Seq<char> {
    match event {
        Event::SessionStart => "Doctrack: checking vault..."@,
        Event::PostToolUse => "Doctrack: validating note..."@,
    }
}

impl Event {
    /// The key of the event.
    pub fn key(&self) -> (r: &'static str)
        ensures
            r@ == event_key(*self),
    {
        match self {
            Event::SessionStart => "SessionStart",
            Event::PostToolUse => "PostToolUse",
        }
    }

    fn command(&self) -> (r: &'static str)
        ensures
            r@ == event_command(*self),
    {
        match self {
            Event::SessionStart => "if [ -d .doctrack ]; then DOCTRACK_ROOT=\"$(pwd)\" doctrack-mcp --coverage 2>/dev/null; fi",
            Event::PostToolUse => "NOTE=$(cat | jq -r '.tool_input.path // empty'); if [ -n \"$NOTE\" ] && [ -d .doctrack ]; then DOCTRACK_ROOT=\"$(pwd)\" doctrack-mcp --validate-note \"$NOTE\" 2>/dev/null; fi",
        }
    }

    fn status(&self) -> (r: &'static str)
        ensures
            r@ == event_status(*self),
    {
        match self {
            Event::SessionStart => "Doctrack: checking vault...",
            Event::PostToolUse => "Doctrack: validating note...",
        }
    }
}

/// The tools whose use the hook on notes follows.
pub open spec fn matcher() -> Seq<char> {
    "mcp__obsidian__write_note|mcp__obsidian__patch_note"@
}

/// The object has `key`, and the text `s` under it.
pub open spec fn says(m: Map<Seq<char>, serde_json::Value>, key: Seq<char>, s: Seq<char>) -> bool {
    m.contains_key(key) && json::string_in(m[key]) == Some(s)
}

/// The command of the hook of an event.
pub open spec fn is_action(v: serde_json::Value, event: Event) -> bool {
    match json::members(v) {
        Some(m) => {
            &&& m.dom() == set!["type"@, "command"@, "statusMessage"@]
            &&& says(m, "type"@, "command"@)
            &&& says(m, "command"@, event_command(event))
            &&& says(m, "statusMessage"@, event_status(event))
        },
        None => false,
    }
}

/// The list that holds the command of the hook of an event and nothing else.
pub open spec fn is_action_list(v: serde_json::Value, event: Event) -> bool {
    match json::elements(v) {
        Some(list) => list.len() == 1 && is_action(list[0], event),
        None => false,
    }
}

/// The hook of an event.
pub open spec fn is_hook(v: serde_json::Value, event: Event) -> bool {
    match json::members(v) {
        Some(m) => {
            &&& m.contains_key("hooks"@)
            &&& is_action_list(m["hooks"@], event)
            &&& match event {
                Event::SessionStart => m.dom() == set!["hooks"@],
                Event::PostToolUse => m.dom() == set!["matcher"@, "hooks"@] && says(
                    m,
                    "matcher"@,
                    matcher(),
                ),
            }
        },
        None => false,
    }
}

/// The value speaks of this program.
pub open spec fn is_ours(v: serde_json::Value) -> bool {
    text::occurs_in("doctrack"@, json::rendered(v))
}

/// One of the values speaks of this program.
pub open spec fn any_ours(list: Seq<serde_json::Value>) -> bool {
    exists|i: int| 0 <= i < list.len() && is_ours(#[trigger] list[i])
}

/// A part of a part is a part.
proof fn lemma_occurs_through(a: Seq<char>, b: Seq<char>, c: Seq<char>)
    requires
        text::occurs_in(a, b),
        text::occurs_in(b, c),
    ensures
        text::occurs_in(a, c),
{
    let i = choose|i: int| text::occurs_at(b, a, i);
    let j = choose|j: int| text::occurs_at(c, b, j);
    assert(c.subrange(j + i, j + i + a.len()) =~= a);
    assert(text::occurs_at(c, a, j + i));
}

/// The command of each hook speaks of this program.
proof fn lemma_command_is_ours(event: Event)
    ensures
        text::occurs_in("doctrack"@, event_command(event)),
        json::is_letters("doctrack"@),
{
    reveal_strlit("doctrack");
    match event {
        Event::SessionStart => {
            reveal_strlit("if [ -d .doctrack ]; then DOCTRACK_ROOT=\"$(pwd)\" doctrack-mcp --coverage 2>/dev/null; fi");
            assert(event_command(event).subrange(9, 17) =~= "doctrack"@);
            assert(text::occurs_at(event_command(event), "doctrack"@, 9));
        },
        Event::PostToolUse => {
            reveal_strlit("NOTE=$(cat | jq -r '.tool_input.path // empty'); if [ -n \"$NOTE\" ] && [ -d .doctrack ]; then DOCTRACK_ROOT=\"$(pwd)\" doctrack-mcp --validate-note \"$NOTE\" 2>/dev/null; fi");
            assert(event_command(event).subrange(76, 84) =~= "doctrack"@);
            assert(text::occurs_at(event_command(event), "doctrack"@, 76));
        },
    }
}

/// The command of the hook of an event.
fn make_action(event: Event) -> (r: serde_json::Value)
    ensures
        is_action(r, event),
        is_ours(r),
{
    let mut action = json::new_object();
    let run = json::new_string(event.command());
    proof {
        reveal_strlit("type");
        reveal_strlit("command");
        reveal_strlit("statusMessage");
        assert("type"@.len() != "command"@.len());
        assert("type"@.len() != "statusMessage"@.len());
        assert("command"@.len() != "statusMessage"@.len());
        lemma_command_is_ours(event);
        assert(text::occurs_in("doctrack"@, json::rendered(run)));
    }
    json::set_member(&mut action, "type", json::new_string("command"));
    json::set_member(&mut action, "command", run);
    json::set_member(&mut action, "statusMessage", json::new_string(event.status()));
    proof {
        let m = json::members(action)->0;
        assert(m.dom() =~= set!["type"@, "command"@, "statusMessage"@]);
        assert(m.contains_key("command"@) && m["command"@] == run);
        lemma_occurs_through("doctrack"@, json::rendered(run), json::rendered(action));
    }
    action
}

/// The hook of an event.
fn make_hook(event: Event) -> (r: serde_json::Value)
    ensures
        is_hook(r, event),
        is_ours(r),
{
    let action = make_action(event);
    let ghost made = action;
    let mut list = json::new_array();
    json::push_element(&mut list, action);
    proof {
        assert(json::elements(list)->0[0] == made);
        lemma_occurs_through("doctrack"@, json::rendered(made), json::rendered(list));
    }
    let ghost held = list;
    let mut hook = json::new_object();
    proof {
        reveal_strlit("hooks");
        reveal_strlit("matcher");
        assert("hooks"@.len() != "matcher"@.len());
    }
    match event {
        Event::SessionStart => {},
        Event::PostToolUse => {
            json::set_member(
                &mut hook,
                "matcher",
                json::new_string("mcp__obsidian__write_note|mcp__obsidian__patch_note"),
            );
        },
    }
    json::set_member(&mut hook, "hooks", list);
    proof {
        let m = json::members(hook)->0;
        assert(m.contains_key("hooks"@) && m["hooks"@] == held);
        lemma_occurs_through("doctrack"@, json::rendered(held), json::rendered(hook));
        match event {
            Event::SessionStart => {
                assert(m.dom() =~= set!["hooks"@]);
            },
            Event::PostToolUse => {
                assert(m.dom() =~= set!["matcher"@, "hooks"@]);
            },
        }
    }
    hook
}

/// What stands under `key`, where something does.
pub open spec fn entry(m: Map<Seq<char>, serde_json::Value>, key: Seq<char>) -> Option<serde_json::Value> {
    if m.contains_key(key) {
        Some(m[key])
    } else {
        None
    }
}

/// The hooks of an event, from what stands under its key.
pub open spec fn hooks_so_far(entry: Option<serde_json::Value>) -> Option<Seq<serde_json::Value>> {
    match entry {
        Some(v) => json::elements(v),
        None => Some(Seq::empty()),
    }
}

/// The events, from what stands under the key of the hooks.
pub open spec fn events_so_far(entry: Option<serde_json::Value>) -> Option<
    Map<Seq<char>, serde_json::Value>,
> {
    match entry {
        Some(v) => json::members(v),
        None => Some(Map::empty()),
    }
}

/// Why hooks are not installed into settings: what is not of the expected kind is the user's, and
/// is not overwritten.
#[derive(Debug, Clone, Copy, PartialEq, Eq, Structural)]
pub enum Refusal {
    /// The settings are not an object.
    TopLevel,
    /// The hooks are not an object.
    Hooks,
    /// The hooks of an event are not an array.
    EventHooks(Event),
}

/// Why hooks are not installed into `settings`, where they are not.
pub open spec fn refusal(settings: serde_json::Value) -> Option<Refusal> {
    match json::members(settings) {
        Some(top) => match events_so_far(entry(top, "hooks"@)) {
            Some(events) => if hooks_so_far(entry(events, event_key(Event::SessionStart))) is None {
                Some(Refusal::EventHooks(Event::SessionStart))
            } else if hooks_so_far(entry(events, event_key(Event::PostToolUse))) is None {
                Some(Refusal::EventHooks(Event::PostToolUse))
            } else {
                None
            },
            None => Some(Refusal::Hooks),
        },
        None => Some(Refusal::TopLevel),
    }
}

/// The hooks of an event, with the one that is installed: none that was there is lost or changed,
/// and one is added behind them only where none of them speaks of this program.
pub open spec fn with_hook(
    before: Seq<serde_json::Value>,
    after: Seq<serde_json::Value>,
    event: Event,
) -> bool {
    if any_ours(before) {
        after == before
    } else {
        &&& after.len() == before.len() + 1
        &&& after.drop_last() == before
        &&& is_hook(after.last(), event)
        &&& is_ours(after.last())
    }
}

/// What stands under the key of an event, with the hook that is installed.
pub open spec fn event_installed(
    before: Option<serde_json::Value>,
    after: serde_json::Value,
    event: Event,
) -> bool {
    match (hooks_so_far(before), json::elements(after)) {
        (Some(old_hooks), Some(new_hooks)) => with_hook(old_hooks, new_hooks, event),
        _ => false,
    }
}

/// The events, with the hooks that are installed. Other events are kept as they are.
pub open spec fn events_installed(
    before: Map<Seq<char>, serde_json::Value>,
    after: Map<Seq<char>, serde_json::Value>,
) -> bool {
    let start = event_key(Event::SessionStart);
    let post = event_key(Event::PostToolUse);
    &&& after.dom() == before.dom().insert(start).insert(post)
    &&& forall|k: Seq<char>|
        k != start && k != post && #[trigger] before.contains_key(k) ==> after[k] == before[k]
    &&& event_installed(entry(before, start), after[start], Event::SessionStart)
    &&& event_installed(entry(before, post), after[post], Event::PostToolUse)
}

/// The settings, with the hooks that are installed. Other settings are kept as they are.
pub open spec fn installed(before: serde_json::Value, after: serde_json::Value) -> bool {
    match (json::members(before), json::members(after)) {
        (Some(old_top), Some(new_top)) => {
            &&& new_top.dom() == old_top.dom().insert("hooks"@)
            &&& forall|k: Seq<char>|
                k != "hooks"@ && #[trigger] old_top.contains_key(k) ==> new_top[k] == old_top[k]
            &&& match (events_so_far(entry(old_top, "hooks"@)), json::members(new_top["hooks"@])) {
                (Some(old_events), Some(new_events)) => events_installed(old_events, new_events),
                _ => false,
            }
        },
        _ => false,
    }
}

/// Whether one of the values speaks of this program.
fn has_ours(list: &Vec<serde_json::Value>) -> (r: bool)
    ensures
        r == any_ours(list@),
{
    let n: usize = list.len();
    for i in 0..n
        invariant
            n == list@.len(),
            forall|k: int| 0 <= k < i ==> !is_ours(#[trigger] list@[k]),
    {
        let line = json::render(&list[i]);
        if text::contains_text(line.as_str(), "doctrack") {
            assert(is_ours(list@[i as int]));
            return true;
        }
    }
    false
}

/// What stands under the key of an event, with the hook that is installed. Nothing where it is not
/// an array.
fn install_event(found: Option<&serde_json::Value>, event: Event) -> (r: Option<serde_json::Value>)
    ensures
        match r {
            Some(after) => hooks_so_far(
                match found {
                    Some(v) => Some(*v),
                    None => None,
                },
            ) is Some && event_installed(
                match found {
                    Some(v) => Some(*v),
                    None => None,
                },
                after,
                event,
            ),
            None => hooks_so_far(
                match found {
                    Some(v) => Some(*v),
                    None => None,
                },
            ) is None,
        },
{
    let mut array = match found {
        Some(v) => json::copy(v),
        None => json::new_array(),
    };
    let present: bool = match json::as_array(&array) {
        Some(list) => has_ours(list),
        None => {
            return None;
        },
    };
    let ghost before = json::elements(array)->0;
    proof {
        if found is None {
            assert(before =~= Seq::empty());
        }
    }
    if !present {
        json::push_element(&mut array, make_hook(event));
        assert(json::elements(array)->0.drop_last() =~= before);
    }
    Some(array)
}

/// Install the hooks into `settings`, appending each only where no hook of this program stands
/// there yet.
pub fn install(settings: serde_json::Value) -> (r: Result<serde_json::Value, Refusal>)
    ensures
        match r {
            Ok(after) => refusal(settings) is None && installed(settings, after),
            Err(why) => refusal(settings) == Some(why),
        },
{
    if !json::is_object(&settings) {
        return Err(Refusal::TopLevel);
    }
    let ghost top = json::members(settings)->0;
    let mut events = match json::member(&settings, "hooks") {
        Some(found) => json::copy(found),
        None => json::new_object(),
    };
    if !json::is_object(&events) {
        return Err(Refusal::Hooks);
    }
    let ghost held = json::members(events)->0;
    proof {
        if !top.contains_key("hooks"@) {
            assert(held =~= Map::empty());
        }
        assert(events_so_far(entry(top, "hooks"@)) == Some(held));
        reveal_strlit("SessionStart");
        reveal_strlit("PostToolUse");
        assert("SessionStart"@.len() != "PostToolUse"@.len());
    }
    let start = match install_event(json::member(&events, "SessionStart"), Event::SessionStart) {
        Some(array) => array,
        None => {
            return Err(Refusal::EventHooks(Event::SessionStart));
        },
    };
    let post = match install_event(json::member(&events, "PostToolUse"), Event::PostToolUse) {
        Some(array) => array,
        None => {
            return Err(Refusal::EventHooks(Event::PostToolUse));
        },
    };
    json::set_member(&mut events, "SessionStart", start);
    json::set_member(&mut events, "PostToolUse", post);
    proof {
        let now = json::members(events)->0;
        assert(now.dom() =~= held.dom().insert("SessionStart"@).insert("PostToolUse"@));
        assert(events_installed(held, now));
    }
    let ghost placed = events;
    let mut after = settings;
    json::set_member(&mut after, "hooks", events);
    proof {
        let now = json::members(after)->0;
        assert(now.dom() =~= top.dom().insert("hooks"@));
        assert(now["hooks"@] == placed);
    }
    Ok(after)
}

/// `settings` is what hooks are installed into: what the file says, or an object without members
/// where there is no file or it is blank.
pub open spec fn starts_from(content: Option<Seq<char>>, settings: serde_json::Value) -> bool {
    match content {
        Some(s) if !text::is_blank(s) => json::parsed(s) == Ok::<serde_json::Value, Seq<char>>(settings),
        _ => json::members(settings) == Some(Map::<Seq<char>, serde_json::Value>::empty()),
    }
}

/// Why the hooks were not installed.
#[derive(Debug, PartialEq, Eq)]
pub enum HooksError {
    /// The settings are not valid JSON.
    NotJson(String),
    /// The settings hold something that is not to be overwritten.
    Refused(Refusal),
}

/// `r` is what comes of installing the hooks where the file holds `content`.
pub open spec fn is_outcome(content: Option<Seq<char>>, r: Result<String, HooksError>) -> bool {
    match r {
        Ok(written) => exists|settings: serde_json::Value, after: serde_json::Value|
            {
                &&& #[trigger] starts_from(content, settings)
                &&& refusal(settings) is None
                &&& #[trigger] installed(settings, after)
                &&& written@ == json::pretty_text(after)
            },
        Err(HooksError::NotJson(message)) => content matches Some(s) && !text::is_blank(s)
            && json::parsed(s) == Err::<serde_json::Value, Seq<char>>(message@),
        Err(HooksError::Refused(why)) => exists|settings: serde_json::Value|
            #[trigger] starts_from(content, settings) && refusal(settings) == Some(why),
    }
}

/// The new text of a settings file that holds `content`, with the hooks installed. Settings that
/// cannot be parsed are the user's: they are refused rather than replaced.
pub fn setup_hooks(content: Option<&str>) -> (r: Result<String, HooksError>)
    ensures
        is_outcome(
            match content {
                Some(s) => Some(s@),
                None => None,
            },
            r,
        ),
{
    let ghost given: Option<Seq<char>> = match content {
        Some(s) => Some(s@),
        None => None,
    };
    let settings = match content {
        Some(s) => if text::blank(s) {
            json::new_object()
        } else {
            match json::parse(s) {
                Ok(v) => v,
                Err(message) => {
                    return Err(HooksError::NotJson(message));
                },
            }
        },
        None => json::new_object(),
    };
    proof {
        if given is None || text::is_blank(given->0) {
            assert(json::members(settings)->0 =~= Map::empty());
        }
        assert(starts_from(given, settings));
    }
    let ghost before = settings;
    match install(settings) {
        Ok(after) => {
            assert(installed(before, after));
            Ok(json::pretty(&after).unwrap())
        },
        Err(why) => Err(HooksError::Refused(why)),
    }
}

/// What is said of settings at `path` that get no hooks.
pub open spec fn refusal_text(path: Seq<char>, why: Refusal) -> Seq<char> {
    match why {
        Refusal::TopLevel => path + " must contain a JSON object at the top level"@,
        Refusal::Hooks => path + " has a non-object `hooks` entry — refusing to overwrite it"@,
        Refusal::EventHooks(event) => path + " has a non-array `hooks."@ + event_key(event)
            + "` entry — refusing to overwrite it"@,
    }
}

/// What is said of settings at `path` that are not JSON, where the parser said `message`.
pub open spec fn not_json_text(path: Seq<char>, message: Seq<char>) -> Seq<char> {
    path + " is not valid JSON ("@ + message + ") — fix or remove it, then re-run --setup-hooks"@
}

impl HooksError {
    /// What is said of the error, where the settings are at `path`.
    pub fn message(&self, path: &str) -> (r: String)
        ensures
            r@ == (match *self {
                HooksError::NotJson(message) => path@ + " is not valid JSON ("@ + message@
                    + ") — fix or remove it, then re-run --setup-hooks"@,
                HooksError::Refused(why) => refusal_text(path@, why),
            }),
            *self matches HooksError::NotJson(message) ==> r@ == not_json_text(path@, message@),
    {
        match self {
            HooksError::NotJson(message) => {
                let mut out = path.to_string();
                out.append(" is not valid JSON (");
                out.append(message.as_str());
                out.append(") — fix or remove it, then re-run --setup-hooks");
                out
            },
            HooksError::Refused(Refusal::TopLevel) => {
                let mut out = path.to_string();
                out.append(" must contain a JSON object at the top level");
                out
            },
            HooksError::Refused(Refusal::Hooks) => {
                let mut out = path.to_string();
                out.append(" has a non-object `hooks` entry — refusing to overwrite it");
                out
            },
            HooksError::Refused(Refusal::EventHooks(event)) => {
                let mut out = path.to_string();
                out.append(" has a non-array `hooks.");
                out.append(event.key());
                out.append("` entry — refusing to overwrite it");
                out
            },
        }
    }
}

/// The hooks of an event in settings.
pub open spec fn event_hooks(settings: serde_json::Value, event: Event) -> Option<Seq<serde_json::Value>> {
    match json::members(settings) {
        Some(top) => match events_so_far(entry(top, "hooks"@)) {
            Some(events) => hooks_so_far(entry(events, event_key(event))),
            None => None,
        },
        None => None,
    }
}

/// The events in settings that have hooks.
pub open spec fn events_in(settings: serde_json::Value) -> Option<Map<Seq<char>, serde_json::Value>> {
    match json::members(settings) {
        Some(top) => events_so_far(entry(top, "hooks"@)),
        None => None,
    }
}

/// Installing the hooks keeps every setting but the hooks, the hooks of every other event, and every
/// hook of an event, in order.
pub proof fn law_install_keeps(before: serde_json::Value, after: serde_json::Value, event: Event)
    requires
        installed(before, after),
    ensures
        json::members(after)->0.remove("hooks"@) == json::members(before)->0.remove("hooks"@),
        events_in(after)->0.remove_keys(
            set![event_key(Event::SessionStart), event_key(Event::PostToolUse)],
        ) == events_in(before)->0.remove_keys(
            set![event_key(Event::SessionStart), event_key(Event::PostToolUse)],
        ),
        event_hooks(before, event) is Some,
        event_hooks(after, event) is Some,
        event_hooks(before, event)->0.is_prefix_of(event_hooks(after, event)->0),
        any_ours(event_hooks(after, event)->0),
{
    let old_top = json::members(before)->0;
    let new_top = json::members(after)->0;
    assert(new_top.remove("hooks"@) =~= old_top.remove("hooks"@)) by {
        assert forall|k: Seq<char>| k != "hooks"@ && old_top.contains_key(k) implies new_top[k] == old_top[k] by {}
        assert(new_top.remove("hooks"@).dom() =~= old_top.remove("hooks"@).dom());
    }
    assert(new_top.contains_key("hooks"@));
    let events = json::members(new_top["hooks"@])->0;
    assert(events.contains_key(event_key(event)));
    let was_events = events_in(before)->0;
    let ours = set![event_key(Event::SessionStart), event_key(Event::PostToolUse)];
    assert(events.remove_keys(ours) =~= was_events.remove_keys(ours)) by {
        assert(events.remove_keys(ours).dom() =~= was_events.remove_keys(ours).dom());
        assert forall|k: Seq<char>| was_events.remove_keys(ours).contains_key(k) implies events[k]
            == was_events[k] by {
            assert(was_events.contains_key(k));
        }
    }
    let list = event_hooks(after, event)->0;
    let was = event_hooks(before, event)->0;
    if !any_ours(was) {
        assert(is_ours(list[list.len() - 1]));
        assert(list.drop_last() =~= list.subrange(0, was.len() as int));
    }
}

/// Installing the hooks a second time is not refused and adds nothing: every hook and every other
/// event and setting is as the first installation left it.
pub proof fn law_install_twice(
    before: serde_json::Value,
    once: serde_json::Value,
    twice: serde_json::Value,
    event: Event,
)
    requires
        installed(before, once),
        installed(once, twice),
    ensures
        refusal(once) is None,
        event_hooks(twice, event) == event_hooks(once, event),
        events_in(twice)->0.remove_keys(
            set![event_key(Event::SessionStart), event_key(Event::PostToolUse)],
        ) == events_in(once)->0.remove_keys(
            set![event_key(Event::SessionStart), event_key(Event::PostToolUse)],
        ),
        json::members(twice)->0.remove("hooks"@) == json::members(once)->0.remove("hooks"@),
{
    law_install_keeps(before, once, event);
    law_install_keeps(once, twice, event);
    law_install_is_not_refused(before, once);
}

/// Settings into which the hooks were installed are not refused.
pub proof fn law_install_is_not_refused(before: serde_json::Value, once: serde_json::Value)
    requires
        installed(before, once),
    ensures
        refusal(once) is None,
{
    law_install_keeps(before, once, Event::SessionStart);
    law_install_keeps(before, once, Event::PostToolUse);
}

} // verus!
