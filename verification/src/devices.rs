//! Which input devices are mice.
use crate::text;
use vstd::prelude::*;

verus! {

/// Whether a device name, in lower case, is that of a mouse.
pub open spec fn names_mouse(lowered: Seq<char>) -> bool {
    ||| text::contains(lowered, "mouse"@)
    ||| text::contains(lowered, "razer"@)
    ||| text::contains(lowered, "logitech"@)
}

/// The path of the device file `name`.
pub open spec fn device_path(name: Seq<char>) -> Seq<char> {
    "/dev/input/"@ + name
}

/// The paths of the event devices among the handlers of a device.
pub open spec fn event_paths(handlers: Seq<Seq<char>>) -> Seq<Seq<char>>
    decreases handlers.len(),
{
    if handlers.len() == 0 {
        Seq::empty()
    } else {
        (if text::starts_with(handlers[0], "event"@) {
            seq![device_path(handlers[0])]
        } else {
            Seq::empty()
        }) + event_paths(handlers.skip(1))
    }
}

/// Whether the device that the listing describes is a mouse, after one more
/// line: a line `I:` begins another device, a line `N: Name=` names it.
pub open spec fn mouse_after(line: Seq<char>, is_mouse: bool) -> bool {
    if text::starts_with(line, "I:"@) {
        false
    } else if text::starts_with(line, "N: Name="@) {
        is_mouse || names_mouse(
            text::lowercase(text::trim_quotes(line.skip("N: Name="@.len() as int))),
        )
    } else {
        is_mouse
    }
}

/// The paths that one line of the listing adds: those in a line
/// `H: Handlers=` of a device that is known to be a mouse.
pub open spec fn line_paths(line: Seq<char>, is_mouse: bool) -> Seq<Seq<char>> {
    if text::starts_with(line, "I:"@) || text::starts_with(line, "N: Name="@) || !is_mouse
        || !text::starts_with(line, "H: Handlers="@) {
        Seq::empty()
    } else {
        event_paths(text::words(line.skip("H: Handlers="@.len() as int)))
    }
}

/// The paths of the mice that lines of the listing describe, where `is_mouse`
/// says whether the device described so far is one.
pub open spec fn mouse_paths(lines: Seq<Seq<char>>, is_mouse: bool) -> Seq<Seq<char>>
    decreases lines.len(),
{
    if lines.len() == 0 {
        Seq::empty()
    } else {
        line_paths(lines[0], is_mouse) + mouse_paths(
            lines.skip(1),
            mouse_after(lines[0], is_mouse),
        )
    }
}

/// The paths of the mice in a whole listing; without a listing there are none.
pub open spec fn listed_mice(listing: Option<Seq<char>>) -> Seq<Seq<char>> {
    match listing {
        None => Seq::empty(),
        Some(content) => mouse_paths(text::lines(content), false),
    }
}

/// The paths that are tried when the listing names no mouse: the first 32
/// event devices.
pub open spec fn candidate_paths() -> Seq<Seq<char>> {
    Seq::new(32, |i: int| "/dev/input/event"@ + text::decimal(i as nat))
}

/// The items of `items` for which the answer at the same place is yes.
pub open spec fn selected(items: Seq<Seq<char>>, answers: Seq<bool>) -> Seq<Seq<char>>
    decreases items.len(),
{
    if items.len() == 0 || answers.len() == 0 {
        Seq::empty()
    } else {
        (if answers[0] {
            seq![items[0]]
        } else {
            Seq::empty()
        }) + selected(items.skip(1), answers.skip(1))
    }
}

/// Whether a device name, in lower case, is that of a mouse.
pub fn is_mouse_name(lowered: &str) -> (mouse: bool)
    ensures
        mouse == names_mouse(lowered@),
{
    let name = text::chars_of(lowered);
    text::has_text(&name, "mouse") || text::has_text(&name, "razer") || text::has_text(
        &name,
        "logitech",
    )
}

/// The path of the device file `name`.
pub fn path_of(name: &[char]) -> (path: String)
    ensures
        path@ == device_path(name@),
{
    let mut path = "/dev/input/".to_owned();
    text::push_chars(&mut path, name);
    path
}

/// Appends the paths of the event devices among `handlers`.
fn push_event_paths(devices: &mut Vec<String>, handlers: &[char])
    ensures
        text::views(final(devices)@) == text::views(old(devices)@) + event_paths(
            text::words(handlers@),
        ),
{
    let mut pos: usize = 0;
    let ghost all = event_paths(text::words(handlers@));
    let ghost before = text::views(devices@);
    assert(handlers@.skip(0) =~= handlers@);
    assert(before + all == text::views(devices@) + event_paths(text::words(handlers@.skip(0))));
    loop
        invariant
            pos <= handlers@.len(),
            before + all == text::views(devices@) + event_paths(
                text::words(handlers@.skip(pos as int)),
            ),
        ensures
            text::views(devices@) == before + all,
        decreases handlers@.len() - pos,
    {
        match text::next_word(handlers, pos) {
            None => {
                assert(text::views(devices@) + Seq::empty() =~= text::views(devices@));
                assert(event_paths(text::words(handlers@.skip(pos as int))) =~= Seq::empty());
                break;
            },
            Some((word, end)) => {
                let ghost rest = text::words(handlers@.skip(end as int));
                let ghost here = text::words(handlers@.skip(pos as int));
                let ghost done = text::views(devices@);
                assert(here[0] == word@);
                assert(here.skip(1) =~= rest);
                if text::has_prefix(word, "event") {
                    devices.push(path_of(word));
                    assert(text::views(devices@) =~= done.push(device_path(word@)));
                    assert(done + event_paths(here) =~= done.push(device_path(word@)) + event_paths(
                        rest,
                    ));
                } else {
                    assert(event_paths(here) =~= event_paths(rest));
                }
                pos = end;
            },
        }
    }
}

/// Whether the device that the listing describes is a mouse, after the name
/// `quoted`.
fn named_mouse(quoted: &[char], is_mouse: bool) -> (mouse: bool)
    ensures
        mouse == (is_mouse || names_mouse(text::lowercase(text::trim_quotes(quoted@)))),
{
    let mut name = String::new();
    text::push_chars(&mut name, text::without_quotes(quoted));
    assert(name@ =~= text::trim_quotes(quoted@));
    let lowered = name.as_str().to_lowercase();
    is_mouse_name(lowered.as_str()) || is_mouse
}

/// The paths of the mice in a listing in the format of
/// `/proc/bus/input/devices`.
pub fn parse_listing(content: &str) -> (devices: Vec<String>)
    ensures
        text::views(devices@) == mouse_paths(text::lines(content@), false),
{
    let chars = text::chars_of(content);
    let mut devices: Vec<String> = Vec::new();
    let mut is_mouse: bool = false;
    let mut pos: usize = 0;
    let ghost all = mouse_paths(text::lines(content@), false);
    assert(chars@.skip(0) =~= content@);
    assert(text::views(devices@) + all =~= all);
    while pos < chars.len()
        invariant
            pos <= chars@.len(),
            all == text::views(devices@) + mouse_paths(
                text::lines(chars@.skip(pos as int)),
                is_mouse,
            ),
        decreases chars@.len() - pos,
    {
        let (line, next) = text::next_line(&chars, pos);
        let ghost here = text::lines(chars@.skip(pos as int));
        let ghost rest = text::lines(chars@.skip(next as int));
        let ghost done = text::views(devices@);
        let ghost was_mouse = is_mouse;
        assert(here[0] == line@);
        assert(here.skip(1) =~= rest);
        if text::has_prefix(line, "I:") {
            is_mouse = false;
        } else if let Some(quoted) = text::after_prefix(line, "N: Name=") {
            is_mouse = named_mouse(quoted, is_mouse);
        } else if is_mouse {
            if let Some(handlers) = text::after_prefix(line, "H: Handlers=") {
                push_event_paths(&mut devices, handlers);
            }
        }
        assert(is_mouse == mouse_after(line@, was_mouse));
        assert(text::views(devices@) =~= done + line_paths(line@, was_mouse));
        assert(done + mouse_paths(here, was_mouse) =~= text::views(devices@) + mouse_paths(
            rest,
            is_mouse,
        ));
        pos = next;
    }
    assert(chars@.skip(pos as int) =~= Seq::empty());
    assert(text::views(devices@) =~= all);
    devices
}

/// Where the mice are.
#[derive(Debug, PartialEq, Eq)]
pub enum DeviceSearch {
    /// The listing names these.
    Listed(Vec<String>),
    /// The listing names none: these have to be opened and asked.
    Probe(Vec<String>),
}

/// Finds the mice in the listing, or else the paths to try.
pub fn find_mouse_devices(listing: Option<&str>) -> (search: DeviceSearch)
    ensures
        ({
            let found = listed_mice(
                match listing {
                    None => None,
                    Some(content) => Some(content@),
                },
            );
            match search {
                DeviceSearch::Listed(devices) => found.len() > 0 && text::views(devices@) == found,
                DeviceSearch::Probe(paths) => found.len() == 0 && text::views(paths@)
                    == candidate_paths(),
            }
        }),
{
    let devices: Vec<String> = match listing {
        None => Vec::new(),
        Some(content) => parse_listing(content),
    };
    if devices.len() > 0 {
        assert(text::views(devices@).len() == devices@.len());
        return DeviceSearch::Listed(devices);
    }
    assert(text::views(devices@).len() == 0);
    let mut paths: Vec<String> = Vec::new();
    let mut i: u32 = 0;
    while i < 32
        invariant
            i <= 32,
            text::views(paths@) == candidate_paths().take(i as int),
        decreases 32 - i,
    {
        let mut path = "/dev/input/event".to_owned();
        text::push_decimal(&mut path, i);
        let ghost done = text::views(paths@);
        paths.push(path);
        assert(text::views(paths@) =~= done.push(candidate_paths()[i as int]));
        i = i + 1;
        assert(text::views(paths@) =~= candidate_paths().take(i as int));
    }
    assert(candidate_paths().take(32) =~= candidate_paths());
    DeviceSearch::Probe(paths)
}

/// The candidates that turned out to be mice.
pub fn probed_devices(paths: &Vec<String>, mouse: &Vec<bool>) -> (devices: Vec<String>)
    ensures
        text::views(devices@) == selected(text::views(paths@), mouse@),
{
    let mut devices: Vec<String> = Vec::new();
    let mut i: usize = 0;
    let ghost all = text::views(paths@);
    assert(all.skip(0) =~= all);
    assert(mouse@.skip(0) =~= mouse@);
    assert(text::views(devices@) + selected(all, mouse@) =~= selected(all, mouse@));
    while i < paths.len() && i < mouse.len()
        invariant
            i <= paths@.len(),
            i <= mouse@.len(),
            all == text::views(paths@),
            selected(all, mouse@) == text::views(devices@) + selected(
                all.skip(i as int),
                mouse@.skip(i as int),
            ),
        decreases paths@.len() - i,
    {
        let ghost done = text::views(devices@);
        assert(all.skip(i as int).skip(1) =~= all.skip(i + 1));
        assert(mouse@.skip(i as int).skip(1) =~= mouse@.skip(i + 1));
        if mouse[i] {
            devices.push(paths[i].clone());
            assert(text::views(devices@) =~= done.push(all[i as int]));
        }
        assert(done + selected(all.skip(i as int), mouse@.skip(i as int)) =~= text::views(devices@)
            + selected(all.skip(i + 1), mouse@.skip(i + 1)));
        i = i + 1;
    }
    assert(text::views(devices@) + Seq::empty() =~= text::views(devices@));
    devices
}

/// A line that begins another device cuts the listing in two that are read
/// apart: no device is taken for a mouse because of the name of another.
pub proof fn lemma_devices_apart(first: Seq<Seq<char>>, second: Seq<Seq<char>>, is_mouse: bool)
    requires
        second.len() > 0 ==> text::starts_with(second[0], "I:"@),
    ensures
        mouse_paths(first + second, is_mouse) == mouse_paths(first, is_mouse) + mouse_paths(
            second,
            false,
        ),
    decreases first.len(),
{
    if first.len() == 0 {
        assert(first + second =~= second);
        if second.len() > 0 {
            assert(mouse_after(second[0], is_mouse) == mouse_after(second[0], false));
        }
        assert(mouse_paths(first, is_mouse) + mouse_paths(second, false) =~= mouse_paths(
            second,
            false,
        ));
    } else {
        assert((first + second)[0] == first[0]);
        assert((first + second).skip(1) =~= first.skip(1) + second);
        lemma_devices_apart(first.skip(1), second, mouse_after(first[0], is_mouse));
        assert(mouse_paths(first + second, is_mouse) =~= mouse_paths(first, is_mouse)
            + mouse_paths(second, false));
    }
}

/// A text that begins with `I:` has a first line that does.
proof fn lemma_first_line_begins_device(content: Seq<char>)
    requires
        text::starts_with(content, "I:"@),
    ensures
        text::lines(content).len() > 0,
        text::starts_with(text::lines(content)[0], "I:"@),
{
    reveal_strlit("I:");
    assert(content.take(2)[0] == 'I' && content.take(2)[1] == ':');
    assert(content.skip(1)[0] == ':');
    reveal_with_fuel(text::line_len, 3);
    let line = text::first_line(content);
    assert(text::line_len(content) >= 2);
    assert(line.take(2) =~= content.take(2));
    assert(text::lines(content)[0] == line);
}

/// A listing that is cut where a device begins lists what the two parts list:
/// no device is taken for a mouse because of the name of another.
pub proof fn lemma_listings_apart(first: Seq<char>, second: Seq<char>)
    requires
        first.len() > 0 ==> first.last() == '\n',
        second.len() > 0 ==> text::starts_with(second, "I:"@),
    ensures
        listed_mice(Some(first + second)) == listed_mice(Some(first)) + listed_mice(Some(second)),
{
    text::lemma_lines_join(first, second);
    if second.len() > 0 {
        lemma_first_line_begins_device(second);
    }
    lemma_devices_apart(text::lines(first), text::lines(second), false);
}

/// A listing in which no name is that of a mouse yields no device.
pub proof fn lemma_no_mouse_name_no_device(lines: Seq<Seq<char>>)
    requires
        forall|i: int|
            #![trigger lines[i]]
            0 <= i < lines.len() && text::starts_with(lines[i], "N: Name="@) ==> !names_mouse(
                text::lowercase(text::trim_quotes(lines[i].skip("N: Name="@.len() as int))),
            ),
    ensures
        mouse_paths(lines, false) == Seq::<Seq<char>>::empty(),
    decreases lines.len(),
{
    if lines.len() > 0 {
        assert(!mouse_after(lines[0], false));
        let rest = lines.skip(1);
        assert forall|i: int|
            #![trigger rest[i]]
            0 <= i < rest.len() && text::starts_with(rest[i], "N: Name="@) implies !names_mouse(
            text::lowercase(text::trim_quotes(rest[i].skip("N: Name="@.len() as int))),
        ) by {
            assert(rest[i] == lines[i + 1]);
        }
        lemma_no_mouse_name_no_device(rest);
        assert(mouse_paths(lines, false) =~= Seq::empty());
    }
}

proof fn lemma_event_paths_prefixed(handlers: Seq<Seq<char>>, k: int)
    requires
        0 <= k < event_paths(handlers).len(),
    ensures
        text::starts_with(event_paths(handlers)[k], "/dev/input/event"@),
    decreases handlers.len(),
{
    reveal_strlit("/dev/input/event");
    reveal_strlit("/dev/input/");
    reveal_strlit("event");
    if text::starts_with(handlers[0], "event"@) {
        let path = device_path(handlers[0]);
        if k == 0 {
            assert forall|j: int| 11 <= j < 16 implies path[j] == "/dev/input/event"@[j] by {
                assert(handlers[0].take(5)[j - 11] == "event"@[j - 11]);
            }
            assert(path.take(16) =~= "/dev/input/event"@);
        } else {
            lemma_event_paths_prefixed(handlers.skip(1), k - 1);
        }
    } else {
        lemma_event_paths_prefixed(handlers.skip(1), k);
    }
}

/// Every device that is found is an event device under `/dev/input`.
pub proof fn lemma_found_are_event_devices(lines: Seq<Seq<char>>, is_mouse: bool, k: int)
    requires
        0 <= k < mouse_paths(lines, is_mouse).len(),
    ensures
        text::starts_with(mouse_paths(lines, is_mouse)[k], "/dev/input/event"@),
    decreases lines.len(),
{
    let here = line_paths(lines[0], is_mouse);
    if k < here.len() {
        lemma_event_paths_prefixed(
            text::words(lines[0].skip("H: Handlers="@.len() as int)),
            k,
        );
    } else {
        lemma_found_are_event_devices(
            lines.skip(1),
            mouse_after(lines[0], is_mouse),
            k - here.len(),
        );
    }
}

/// A name with `mouse`, `razer` or `logitech` anywhere in it is that of a mouse.
pub proof fn lemma_mouse_names(before: Seq<char>, after: Seq<char>)
    ensures
        names_mouse(before + "mouse"@ + after),
        names_mouse(before + "razer"@ + after),
        names_mouse(before + "logitech"@ + after),
{
    text::lemma_contains_part(before, "mouse"@, after);
    text::lemma_contains_part(before, "razer"@, after);
    text::lemma_contains_part(before, "logitech"@, after);
}

/// No other name is that of a mouse.
pub proof fn lemma_other_names(lowered: Seq<char>)
    requires
        forall|before: Seq<char>, after: Seq<char>|
            lowered != #[trigger] (before + "mouse"@ + after),
        forall|before: Seq<char>, after: Seq<char>|
            lowered != #[trigger] (before + "razer"@ + after),
        forall|before: Seq<char>, after: Seq<char>|
            lowered != #[trigger] (before + "logitech"@ + after),
    ensures
        !names_mouse(lowered),
{
    if text::contains(lowered, "mouse"@) {
        let parts = text::lemma_contained_part(lowered, "mouse"@);
        assert(lowered == parts.0 + "mouse"@ + parts.1);
    }
    if text::contains(lowered, "razer"@) {
        let parts = text::lemma_contained_part(lowered, "razer"@);
        assert(lowered == parts.0 + "razer"@ + parts.1);
    }
    if text::contains(lowered, "logitech"@) {
        let parts = text::lemma_contained_part(lowered, "logitech"@);
        assert(lowered == parts.0 + "logitech"@ + parts.1);
    }
}

/// The event devices among some handlers are all the words that begin with
/// `event`, of any length, in their order.
proof fn lemma_event_paths_filter(handlers: Seq<Seq<char>>, f: spec_fn(Seq<char>) -> bool)
    requires
        forall|w: Seq<char>| #[trigger]
            f(w) <==> w.len() >= 5 && w[0] == 'e' && w[1] == 'v' && w[2] == 'e' && w[3] == 'n'
                && w[4] == 't',
    ensures
        event_paths(handlers) == handlers.filter(f).map_values(
            |w: Seq<char>| "/dev/input/"@ + w,
        ),
    decreases handlers.len(),
{
    let g = |w: Seq<char>| "/dev/input/"@ + w;
    if handlers.len() == 0 {
        reveal(Seq::filter);
        assert(event_paths(handlers) =~= handlers.filter(f).map_values(g));
    } else {
        let first = handlers[0];
        let rest = handlers.skip(1);
        lemma_event_paths_filter(rest, f);
        reveal_strlit("event");
        text::lemma_starts_with(first, "event"@);
        if f(first) {
            assert forall|i: int| 0 <= i < 5 implies #[trigger] first[i] == "event"@[i] by {}
        }
        if text::starts_with(first, "event"@) {
            assert(first[0] == "event"@[0] && first[1] == "event"@[1] && first[2] == "event"@[2]
                && first[3] == "event"@[3] && first[4] == "event"@[4]);
        }
        assert(text::starts_with(first, "event"@) <==> f(first));
        assert(handlers =~= seq![first] + rest);
        Seq::filter_distributes_over_add(seq![first], rest, f);
        reveal(Seq::filter);
        assert(seq![first].drop_last().filter(f) =~= Seq::empty());
        assert(seq![first].filter(f) =~= (if f(first) {
            seq![first]
        } else {
            Seq::empty()
        }));
        assert(event_paths(handlers) =~= handlers.filter(f).map_values(g));
    }
}

/// How a listing is read, by its first line: `I:` begins a device that is not
/// known to be a mouse, `N: Name=` makes it one if the name says so, and in a
/// mouse's `H: Handlers=` every word that begins with `event`, of any length,
/// is a device file, in the order of the words. Of another device handlers
/// count for nothing.
pub proof fn lemma_listing_line(t: Seq<char>, rest: Seq<Seq<char>>, is_mouse: bool)
    ensures
        mouse_paths(seq!["I:"@ + t] + rest, is_mouse) == mouse_paths(rest, false),
        mouse_paths(seq!["N: Name="@ + t] + rest, is_mouse) == mouse_paths(
            rest,
            is_mouse || names_mouse(text::lowercase(text::trim_quotes(t))),
        ),
        mouse_paths(seq!["H: Handlers="@ + t] + rest, true) == text::words(t).filter(
            |w: Seq<char>|
                w.len() >= 5 && w[0] == 'e' && w[1] == 'v' && w[2] == 'e' && w[3] == 'n' && w[4]
                    == 't',
        ).map_values(|w: Seq<char>| "/dev/input/"@ + w) + mouse_paths(rest, true),
        mouse_paths(seq!["H: Handlers="@ + t] + rest, false) == mouse_paths(rest, false),
{
    reveal_strlit("I:");
    reveal_strlit("N: Name=");
    reveal_strlit("H: Handlers=");
    let device = "I:"@ + t;
    let name = "N: Name="@ + t;
    let handlers = "H: Handlers="@ + t;
    assert(device.take(2) =~= "I:"@);
    assert(name.take(8) =~= "N: Name="@);
    assert(handlers.take(12) =~= "H: Handlers="@);
    assert(name.skip(8) =~= t);
    assert(handlers.skip(12) =~= t);
    assert(name.take(2)[0] == 'N' && "I:"@[0] == 'I');
    assert(handlers.take(2)[0] == 'H');
    assert(handlers.take(8)[0] == 'H' && "N: Name="@[0] == 'N');
    assert((seq![device] + rest).skip(1) =~= rest);
    assert((seq![name] + rest).skip(1) =~= rest);
    assert((seq![handlers] + rest).skip(1) =~= rest);
    assert((seq![device] + rest)[0] == device);
    assert((seq![name] + rest)[0] == name);
    assert((seq![handlers] + rest)[0] == handlers);
    assert(mouse_paths(seq![device] + rest, is_mouse) =~= mouse_paths(rest, false));
    assert(mouse_paths(seq![name] + rest, is_mouse) =~= mouse_paths(
        rest,
        is_mouse || names_mouse(text::lowercase(text::trim_quotes(t))),
    ));
    assert(mouse_paths(seq![handlers] + rest, false) =~= mouse_paths(rest, false));
    lemma_event_paths_filter(
        text::words(t),
        |w: Seq<char>|
            w.len() >= 5 && w[0] == 'e' && w[1] == 'v' && w[2] == 'e' && w[3] == 'n' && w[4] == 't',
    );
}

/// A line of any other kind changes nothing, and no lines list no devices.
pub proof fn lemma_other_line(line: Seq<char>, rest: Seq<Seq<char>>, is_mouse: bool)
    requires
        !text::starts_with(line, "I:"@),
        !text::starts_with(line, "N: Name="@),
        !text::starts_with(line, "H: Handlers="@),
    ensures
        mouse_paths(seq![line] + rest, is_mouse) == mouse_paths(rest, is_mouse),
        mouse_paths(Seq::empty(), is_mouse) == Seq::<Seq<char>>::empty(),
{
    assert((seq![line] + rest)[0] == line);
    assert((seq![line] + rest).skip(1) =~= rest);
    assert(mouse_paths(seq![line] + rest, is_mouse) =~= mouse_paths(rest, is_mouse));
}

/// Whether the device is known to be a mouse after some lines.
spec fn mouse_after_all(lines: Seq<Seq<char>>, is_mouse: bool) -> bool
    decreases lines.len(),
{
    if lines.len() == 0 {
        is_mouse
    } else {
        mouse_after_all(lines.skip(1), mouse_after(lines[0], is_mouse))
    }
}

proof fn lemma_mouse_paths_join(first: Seq<Seq<char>>, second: Seq<Seq<char>>, is_mouse: bool)
    ensures
        mouse_paths(first + second, is_mouse) == mouse_paths(first, is_mouse) + mouse_paths(
            second,
            mouse_after_all(first, is_mouse),
        ),
    decreases first.len(),
{
    if first.len() == 0 {
        assert(first + second =~= second);
        assert(mouse_paths(first, is_mouse) + mouse_paths(second, is_mouse) =~= mouse_paths(
            second,
            is_mouse,
        ));
    } else {
        assert((first + second)[0] == first[0]);
        assert((first + second).skip(1) =~= first.skip(1) + second);
        lemma_mouse_paths_join(first.skip(1), second, mouse_after(first[0], is_mouse));
        assert(mouse_paths(first + second, is_mouse) =~= mouse_paths(first, is_mouse)
            + mouse_paths(second, mouse_after_all(first, is_mouse)));
    }
}

proof fn lemma_mouse_stays(lines: Seq<Seq<char>>)
    requires
        forall|i: int| 0 <= i < lines.len() ==> !text::starts_with(#[trigger] lines[i], "I:"@),
    ensures
        mouse_after_all(lines, true),
    decreases lines.len(),
{
    if lines.len() > 0 {
        assert(!text::starts_with(lines[0], "I:"@));
        assert forall|i: int| 0 <= i < lines.skip(1).len() implies !text::starts_with(
            #[trigger] lines.skip(1)[i],
            "I:"@,
        ) by {
            assert(lines.skip(1)[i] == lines[i + 1]);
        }
        lemma_mouse_stays(lines.skip(1));
    }
}

/// Nothing is missed: where a device has the name of a mouse, and a line of its
/// handlers follows before the next device begins, every word of that line
/// that begins with `event`, of any length, is found, in the order of the
/// words, whatever else the listing holds.
pub proof fn lemma_every_handler_found(
    content: Seq<char>,
    before: Seq<Seq<char>>,
    name: Seq<char>,
    between: Seq<Seq<char>>,
    handlers: Seq<char>,
    after: Seq<Seq<char>>,
) -> (parts: (Seq<Seq<char>>, Seq<Seq<char>>))
    requires
        text::lines(content) == before + seq!["N: Name="@ + name] + between + seq![
            "H: Handlers="@ + handlers,
        ] + after,
        names_mouse(text::lowercase(text::trim_quotes(name))),
        forall|i: int| 0 <= i < between.len() ==> !text::starts_with(#[trigger] between[i], "I:"@),
    ensures
        listed_mice(Some(content)) == parts.0 + text::words(handlers).filter(
            |w: Seq<char>|
                w.len() >= 5 && w[0] == 'e' && w[1] == 'v' && w[2] == 'e' && w[3] == 'n' && w[4]
                    == 't',
        ).map_values(|w: Seq<char>| "/dev/input/"@ + w) + parts.1,
{
    let name_line = "N: Name="@ + name;
    let handlers_line = "H: Handlers="@ + handlers;
    let head = before + seq![name_line] + between;
    let tail = seq![handlers_line] + after;
    let f = |w: Seq<char>|
        w.len() >= 5 && w[0] == 'e' && w[1] == 'v' && w[2] == 'e' && w[3] == 'n' && w[4] == 't';
    let found = text::words(handlers).filter(f).map_values(|w: Seq<char>| "/dev/input/"@ + w);
    assert(text::lines(content) =~= head + tail);
    lemma_mouse_paths_join(head, tail, false);
    lemma_listing_line(handlers, after, true);
    lemma_listing_line(name, Seq::empty(), mouse_after_all(before, false));
    assert(mouse_after_all(head, false)) by {
        lemma_mouse_stays(between);
        lemma_mouse_after_joins(before + seq![name_line], between, false);
        lemma_mouse_after_joins(before, seq![name_line], false);
        reveal_strlit("I:");
        reveal_strlit("N: Name=");
        assert(name_line.take(8) =~= "N: Name="@);
        assert(name_line.skip(8) =~= name);
        assert(name_line.take(2)[0] == 'N' && "I:"@[0] == 'I');
        assert(seq![name_line].skip(1) =~= Seq::empty());
        reveal_with_fuel(mouse_after_all, 2);
    }
    let parts = (mouse_paths(head, false), mouse_paths(after, true));
    assert(listed_mice(Some(content)) =~= parts.0 + found + parts.1);
    parts
}

proof fn lemma_mouse_after_joins(first: Seq<Seq<char>>, second: Seq<Seq<char>>, is_mouse: bool)
    ensures
        mouse_after_all(first + second, is_mouse) == mouse_after_all(
            second,
            mouse_after_all(first, is_mouse),
        ),
    decreases first.len(),
{
    if first.len() == 0 {
        assert(first + second =~= second);
    } else {
        assert((first + second).skip(1) =~= first.skip(1) + second);
        lemma_mouse_after_joins(first.skip(1), second, mouse_after(first[0], is_mouse));
    }
}

/// A word that begins with `event` is among the devices that its line yields.
pub proof fn lemma_handler_is_listed(
    content: Seq<char>,
    before: Seq<Seq<char>>,
    name: Seq<char>,
    between: Seq<Seq<char>>,
    handlers: Seq<char>,
    after: Seq<Seq<char>>,
    word: int,
)
    requires
        text::lines(content) == before + seq!["N: Name="@ + name] + between + seq![
            "H: Handlers="@ + handlers,
        ] + after,
        names_mouse(text::lowercase(text::trim_quotes(name))),
        forall|i: int| 0 <= i < between.len() ==> !text::starts_with(#[trigger] between[i], "I:"@),
        0 <= word < text::words(handlers).len(),
        text::words(handlers)[word].len() >= 5,
        text::words(handlers)[word].take(5) == seq!['e', 'v', 'e', 'n', 't'],
    ensures
        listed_mice(Some(content)).contains("/dev/input/"@ + text::words(handlers)[word]),
{
    let parts = lemma_every_handler_found(content, before, name, between, handlers, after);
    let f = |w: Seq<char>|
        w.len() >= 5 && w[0] == 'e' && w[1] == 'v' && w[2] == 'e' && w[3] == 'n' && w[4] == 't';
    let g = |w: Seq<char>| "/dev/input/"@ + w;
    let all = text::words(handlers);
    let w = all[word];
    let five = w.take(5);
    assert(five[0] == 'e' && five[1] == 'v' && five[2] == 'e' && five[3] == 'n' && five[4] == 't');
    assert(f(w));
    all.lemma_filter_contains(f, word);
    let k = choose|k: int| 0 <= k < all.filter(f).len() && all.filter(f)[k] == w;
    let found = all.filter(f).map_values(g);
    assert(found[k] == "/dev/input/"@ + w);
    assert(listed_mice(Some(content))[parts.0.len() + k] == found[k]);
}

/// A listing is read by its lines, from a state in which no device is known to
/// be a mouse; without a listing there is nothing to find.
pub proof fn lemma_listing_read(content: Seq<char>)
    ensures
        listed_mice(Some(content)) == mouse_paths(text::lines(content), false),
        listed_mice(None) == Seq::<Seq<char>>::empty(),
{
}

/// The paths to try are those of the event devices from 0 to 31.
pub proof fn lemma_candidates(i: int)
    requires
        0 <= i < 32,
    ensures
        candidate_paths().len() == 32,
        i < 10 ==> candidate_paths()[i] == "/dev/input/event"@ + seq![
            seq!['0', '1', '2', '3', '4', '5', '6', '7', '8', '9'][i],
        ],
        i >= 10 ==> candidate_paths()[i] == "/dev/input/event"@ + seq![
            seq!['0', '1', '2', '3'][i / 10],
            seq!['0', '1', '2', '3', '4', '5', '6', '7', '8', '9'][i % 10],
        ],
{
    if i < 10 {
        text::lemma_decimal(0, i as nat);
    } else {
        text::lemma_decimal((i / 10) as nat, (i % 10) as nat);
        text::lemma_decimal(0, (i / 10) as nat);
        assert(text::decimal(i as nat) =~= seq![
            seq!['0', '1', '2', '3'][i / 10],
            seq!['0', '1', '2', '3', '4', '5', '6', '7', '8', '9'][i % 10],
        ]);
    }
}

/// One more candidate is kept, behind the others, exactly if its answer is
/// yes.
pub proof fn lemma_selected(
    items: Seq<Seq<char>>,
    answers: Seq<bool>,
    item: Seq<char>,
    answer: bool,
)
    requires
        items.len() == answers.len(),
    ensures
        selected(Seq::empty(), Seq::empty()) == Seq::<Seq<char>>::empty(),
        selected(items.push(item), answers.push(answer)) == (if answer {
            selected(items, answers).push(item)
        } else {
            selected(items, answers)
        }),
    decreases items.len(),
{
    let more = items.push(item);
    let more_answers = answers.push(answer);
    if items.len() == 0 {
        assert(selected(more.skip(1), more_answers.skip(1)) =~= Seq::empty());
        assert(selected(more, more_answers) =~= (if answer {
            selected(items, answers).push(item)
        } else {
            selected(items, answers)
        }));
    } else {
        lemma_selected(items.skip(1), answers.skip(1), item, answer);
        assert(more.skip(1) =~= items.skip(1).push(item));
        assert(more_answers.skip(1) =~= answers.skip(1).push(answer));
        assert(selected(more, more_answers) =~= (if answer {
            selected(items, answers).push(item)
        } else {
            selected(items, answers)
        }));
    }
}

} // verus!
