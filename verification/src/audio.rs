//! Which audio device to use, and how.

use vstd::prelude::*;
use crate::text::{
    contains, occurring_is_standing_in_between, occurs_in, same_text, starts_with, views,
};

verus! {

/// The rate that gorgon runs at where a device can.
pub const PREFERRED_RATE: u32 = 48_000;

/// Why there is no device, or no way to use it.
pub enum AudioError {
    NoDefaultInput,
    NoDefaultOutput,
    NoInputMatching(String),
    NoOutputMatching(String),
    NoInputConfigs,
    NoOutputConfigs,
}

impl AudioError {
    /// The error in words.
    pub open spec fn text(self) -> Seq<char> {
        match self {
            AudioError::NoDefaultInput => "no default input device"@,
            AudioError::NoDefaultOutput => "no default output device"@,
            AudioError::NoInputMatching(n) => "no input device matching '"@ + n@ + "'"@,
            AudioError::NoOutputMatching(n) => "no output device matching '"@ + n@ + "'"@,
            AudioError::NoInputConfigs => "no supported input configs"@,
            AudioError::NoOutputConfigs => "no supported output configs"@,
        }
    }

    /// The error in words.
    pub fn message(&self) -> (s: String)
        ensures
            s@ == self.text(),
    {
        match self {
            AudioError::NoDefaultInput => "no default input device".to_owned(),
            AudioError::NoDefaultOutput => "no default output device".to_owned(),
            AudioError::NoInputMatching(n) => {
                let mut s = String::new();
                s.append("no input device matching '");
                s.append(n.as_str());
                s.append("'");
                assert(s@ =~= self.text());
                s
            },
            AudioError::NoOutputMatching(n) => {
                let mut s = String::new();
                s.append("no output device matching '");
                s.append(n.as_str());
                s.append("'");
                assert(s@ =~= self.text());
                s
            },
            AudioError::NoInputConfigs => "no supported input configs".to_owned(),
            AudioError::NoOutputConfigs => "no supported output configs".to_owned(),
        }
    }
}

/// Device `i` is the first one whose name satisfies `wanted`.
pub open spec fn is_first(names: Seq<Seq<char>>, wanted: spec_fn(Seq<char>) -> bool, i: int) -> bool {
    &&& 0 <= i < names.len()
    &&& wanted(names[i])
    &&& forall|j: int| 0 <= j < i ==> !wanted(#[trigger] names[j])
}

/// Some device's name satisfies `wanted`.
pub open spec fn any_name(names: Seq<Seq<char>>, wanted: spec_fn(Seq<char>) -> bool) -> bool {
    exists|i: int| 0 <= i < names.len() && wanted(#[trigger] names[i])
}

/// The name is `n` itself.
pub open spec fn exactly(n: Seq<char>) -> spec_fn(Seq<char>) -> bool {
    |name: Seq<char>| name == n
}

/// The name is that of a converting device, and `n` stands in it.
pub open spec fn converting(n: Seq<char>) -> spec_fn(Seq<char>) -> bool {
    |name: Seq<char>| occurs_in(n, name) && "plughw:"@.is_prefix_of(name)
}

/// `n` stands in the name.
pub open spec fn matching(n: Seq<char>) -> spec_fn(Seq<char>) -> bool {
    |name: Seq<char>| occurs_in(n, name)
}

/// Device `i` is the one that `n` asks for: an exact name before a converting
/// device that matches, and that before any other that matches.
pub open spec fn is_choice(names: Seq<Seq<char>>, n: Seq<char>, i: int) -> bool {
    if any_name(names, exactly(n)) {
        is_first(names, exactly(n), i)
    } else if any_name(names, converting(n)) {
        is_first(names, converting(n), i)
    } else {
        is_first(names, matching(n), i)
    }
}

proof fn text_occurs_in_itself(n: Seq<char>)
    ensures
        occurs_in(n, n),
{
    assert(n.subrange(0, n.len() as int) =~= n);
    assert(crate::text::occurs_at(n, n, 0));
}

/// Finds a device by name substring in the full (unfiltered) device list.
///
/// When several devices match (e.g. "ES9" matches both `hw:CARD=ES9` and
/// `plughw:CARD=ES9`), the `plughw:` variant is preferred: it converts to the
/// f32/48k format gorgon uses, whereas the bare `hw:` device demands the
/// interface's native format. An exact name match always wins, so a full ALSA
/// name can still force a specific device.
pub fn find_by_name(names: &[String], n: &str) -> (r: Option<usize>)
    ensures
        r is Some <==> any_name(views(names@), matching(n@)),
        r matches Some(i) ==> is_choice(views(names@), n@, i as int),
{
    let ghost all = views(names@);
    let mut exact: Option<usize> = None;
    let mut plug: Option<usize> = None;
    let mut first: Option<usize> = None;
    let mut i: usize = 0;
    while i < names.len()
        invariant
            i <= names@.len(),
            all == views(names@),
            match exact {
                Some(k) => is_first(all, exactly(n@), k as int) && k < i,
                None => forall|j: int| 0 <= j < i ==> !exactly(n@)(#[trigger] all[j]),
            },
            match plug {
                Some(k) => is_first(all, converting(n@), k as int) && k < i,
                None => forall|j: int| 0 <= j < i ==> !converting(n@)(#[trigger] all[j]),
            },
            match first {
                Some(k) => is_first(all, matching(n@), k as int) && k < i,
                None => forall|j: int| 0 <= j < i ==> !matching(n@)(#[trigger] all[j]),
            },
        decreases names.len() - i,
    {
        let name = names[i].as_str();
        assert(all[i as int] == name@);
        if contains(name, n) {
            if exact.is_none() && same_text(name, n) {
                exact = Some(i);
            }
            if plug.is_none() && starts_with(name, "plughw:") {
                plug = Some(i);
            }
            if first.is_none() {
                first = Some(i);
            }
        } else {
            proof {
                text_occurs_in_itself(n@);
            }
        }
        i = i + 1;
    }
    proof {
        text_occurs_in_itself(n@);
    }
    if exact.is_some() {
        exact
    } else if plug.is_some() {
        plug
    } else {
        first
    }
}

/// `name` is the name of the device that `n` asks for.
pub open spec fn is_chosen_name(names: Seq<Seq<char>>, n: Seq<char>, name: Seq<char>) -> bool {
    exists|i: int| #[trigger] is_choice(names, n, i) && names[i] == name
}

/// Which device to open.
pub enum DeviceChoice {
    /// The system's default.
    Default,
    /// The device of this name.
    Named(String),
}

/// The name that is asked for, if any.
pub open spec fn wish(name: Option<&str>) -> Option<Seq<char>> {
    match name {
        None => None,
        Some(n) => Some(n@),
    }
}

/// The device for `name`: the system's default without one (which has to exist),
/// and the one that the name asks for otherwise.
pub open spec fn chosen_device(
    name: Option<Seq<char>>,
    names: Seq<Seq<char>>,
    has_default: bool,
    choice: DeviceChoice,
) -> bool {
    match name {
        None => has_default && choice is Default,
        Some(n) => match choice {
            DeviceChoice::Default => false,
            DeviceChoice::Named(c) => is_chosen_name(names, n, c@),
        },
    }
}

/// Picks the input device. `names` are all devices, whatever their direction:
/// probing each for a direction can poison a later lookup on duplex interfaces.
pub fn find_input_device(name: Option<&str>, names: &[String], has_default: bool) -> (r: Result<
    DeviceChoice,
    AudioError,
>)
    ensures
        r is Ok <==> match name {
            None => has_default,
            Some(n) => any_name(views(names@), matching(n@)),
        },
        match r {
            Ok(c) => chosen_device(wish(name), views(names@), has_default, c),
            Err(e) => match name {
                None => e is NoDefaultInput,
                Some(n) => e is NoInputMatching && e->NoInputMatching_0@ == n@,
            },
        },
{
    match name {
        None => if has_default {
            Ok(DeviceChoice::Default)
        } else {
            Err(AudioError::NoDefaultInput)
        },
        Some(n) => match find_by_name(names, n) {
            Some(i) => {
                let chosen = names[i].clone();
                assert(views(names@)[i as int] == chosen@);
                assert(is_chosen_name(views(names@), n@, chosen@));
                Ok(DeviceChoice::Named(chosen))
            },
            None => Err(AudioError::NoInputMatching(n.to_owned())),
        },
    }
}

/// Picks the output device: see [`find_input_device`].
pub fn find_output_device(name: Option<&str>, names: &[String], has_default: bool) -> (r: Result<
    DeviceChoice,
    AudioError,
>)
    ensures
        r is Ok <==> match name {
            None => has_default,
            Some(n) => any_name(views(names@), matching(n@)),
        },
        match r {
            Ok(c) => chosen_device(wish(name), views(names@), has_default, c),
            Err(e) => match name {
                None => e is NoDefaultOutput,
                Some(n) => e is NoOutputMatching && e->NoOutputMatching_0@ == n@,
            },
        },
{
    match name {
        None => if has_default {
            Ok(DeviceChoice::Default)
        } else {
            Err(AudioError::NoDefaultOutput)
        },
        Some(n) => match find_by_name(names, n) {
            Some(i) => {
                let chosen = names[i].clone();
                assert(views(names@)[i as int] == chosen@);
                assert(is_chosen_name(views(names@), n@, chosen@));
                Ok(DeviceChoice::Named(chosen))
            },
            None => Err(AudioError::NoOutputMatching(n.to_owned())),
        },
    }
}

/// `m` is the greatest of `counts`.
pub open spec fn is_greatest(counts: Seq<u16>, m: u16) -> bool {
    &&& counts.contains(m)
    &&& forall|i: int| 0 <= i < counts.len() ==> (#[trigger] counts[i]) <= m
}

fn greatest(counts: &[u16]) -> (r: Option<u16>)
    ensures
        match r {
            Some(m) => is_greatest(counts@, m),
            None => counts@.len() == 0,
        },
{
    if counts.len() == 0 {
        return None;
    }
    let mut m: u16 = counts[0];
    let mut i: usize = 1;
    while i < counts.len()
        invariant
            1 <= i <= counts@.len(),
            counts@.contains(m),
            forall|j: int| 0 <= j < i ==> (#[trigger] counts@[j]) <= m,
        decreases counts.len() - i,
    {
        if counts[i] > m {
            m = counts[i];
        }
        i = i + 1;
    }
    Some(m)
}

/// Highest channel count that the device supports for input. `configs` holds the
/// channel count of each configuration that it offers.
pub fn max_input_channels(configs: &[u16]) -> (r: Result<u16, AudioError>)
    ensures
        match r {
            Ok(m) => is_greatest(configs@, m),
            Err(e) => configs@.len() == 0 && e is NoInputConfigs,
        },
{
    match greatest(configs) {
        Some(m) => Ok(m),
        None => Err(AudioError::NoInputConfigs),
    }
}

/// Highest channel count that the device supports for output.
pub fn max_output_channels(configs: &[u16]) -> (r: Result<u16, AudioError>)
    ensures
        match r {
            Ok(m) => is_greatest(configs@, m),
            Err(e) => configs@.len() == 0 && e is NoOutputConfigs,
        },
{
    match greatest(configs) {
        Some(m) => Ok(m),
        None => Err(AudioError::NoOutputConfigs),
    }
}

/// Some configuration spans the preferred rate.
pub open spec fn supports_preferred(ranges: Seq<(u32, u32)>) -> bool {
    exists|i: int|
        0 <= i < ranges.len() && (#[trigger] ranges[i]).0 <= PREFERRED_RATE <= ranges[i].1
}

/// Preferred sample rate: 48 kHz if the device supports it. `None` leaves the
/// choice to the device's default. `ranges` holds the lowest and highest rate of
/// each configuration that the device offers.
pub fn preferred_sample_rate(ranges: &[(u32, u32)]) -> (r: Option<u32>)
    ensures
        r == if supports_preferred(ranges@) {
            Some(PREFERRED_RATE)
        } else {
            None
        },
{
    let mut i: usize = 0;
    while i < ranges.len()
        invariant
            i <= ranges@.len(),
            forall|j: int|
                0 <= j < i ==> !((#[trigger] ranges@[j]).0 <= PREFERRED_RATE <= ranges@[j].1),
        decreases ranges.len() - i,
    {
        let (low, high) = ranges[i];
        if low <= PREFERRED_RATE && PREFERRED_RATE <= high {
            assert(ranges@[i as int].0 <= PREFERRED_RATE <= ranges@[i as int].1);
            return Some(PREFERRED_RATE);
        }
        i = i + 1;
    }
    None
}

/// `names` without those that stand further in front already.
pub open spec fn first_mentions(names: Seq<Seq<char>>) -> Seq<Seq<char>>
    decreases names.len(),
{
    if names.len() == 0 {
        Seq::empty()
    } else {
        let front = first_mentions(names.drop_last());
        if names.drop_last().contains(names.last()) {
            front
        } else {
            front.push(names.last())
        }
    }
}

/// Whether `name` stands in `names`.
fn mentions(names: &Vec<String>, name: &str) -> (r: bool)
    ensures
        r == views(names@).contains(name@),
{
    let mut i: usize = 0;
    while i < names.len()
        invariant
            i <= names@.len(),
            forall|j: int| 0 <= j < i ==> (#[trigger] views(names@)[j]) != name@,
        decreases names.len() - i,
    {
        assert(views(names@)[i as int] == names@[i as int]@);
        if same_text(names[i].as_str(), name) {
            return true;
        }
        i = i + 1;
    }
    false
}

proof fn first_mentions_keeps(names: Seq<Seq<char>>, n: Seq<char>)
    ensures
        first_mentions(names).contains(n) <==> names.contains(n),
    decreases names.len(),
{
    if names.len() > 0 {
        let front = names.drop_last();
        first_mentions_keeps(front, n);
        let f = first_mentions(front);
        if names.contains(n) {
            let i = choose|i: int| 0 <= i < names.len() && names[i] == n;
            if i < front.len() {
                assert(front[i] == n);
                let k = choose|k: int| 0 <= k < f.len() && f[k] == n;
                if !front.contains(names.last()) {
                    assert(f.push(names.last())[k] == n);
                }
            } else if !front.contains(n) {
                assert(f.push(names.last())[f.len() as int] == n);
            }
        }
        if first_mentions(names).contains(n) {
            let k = choose|k: int|
                0 <= k < first_mentions(names).len() && first_mentions(names)[k] == n;
            if k < f.len() {
                assert(f[k] == n);
                let i = choose|i: int| 0 <= i < front.len() && front[i] == n;
                assert(names[i] == n);
            } else {
                assert(names[names.len() - 1] == n);
            }
        }
    }
}

/// The devices to list, each once however often it is enumerated.
pub fn list_devices(names: &[String]) -> (seen: Vec<String>)
    ensures
        views(seen@) == first_mentions(views(names@)),
{
    let mut seen: Vec<String> = Vec::new();
    let ghost all = views(names@);
    let mut i: usize = 0;
    while i < names.len()
        invariant
            i <= names@.len(),
            all == views(names@),
            views(seen@) =~= first_mentions(all.take(i as int)),
        decreases names.len() - i,
    {
        proof {
            let front = all.take(i as int);
            assert(all.take(i + 1).drop_last() =~= front);
            assert(all.take(i + 1).last() == names@[i as int]@);
            first_mentions_keeps(front, names@[i as int]@);
        }
        if !mentions(&seen, names[i].as_str()) {
            let name = names[i].clone();
            let ghost prev = seen@;
            seen.push(name);
            assert(views(seen@) =~= views(prev).push(name@));
        }
        i = i + 1;
    }
    assert(all.take(i as int) =~= all);
    seen
}

/// Listing devices leaves none out and repeats none.
pub proof fn listing_is_complete_and_unique(names: Seq<Seq<char>>, n: Seq<char>)
    ensures
        first_mentions(names).contains(n) <==> names.contains(n),
        first_mentions(names).no_duplicates(),
    decreases names.len(),
{
    first_mentions_keeps(names, n);
    if names.len() > 0 {
        let front = names.drop_last();
        listing_is_complete_and_unique(front, n);
        first_mentions_keeps(front, names.last());
    }
}

/// A full device name that exists is always the one chosen.
pub proof fn exact_name_wins(names: Seq<Seq<char>>, n: Seq<char>, i: int)
    requires
        names.contains(n),
        is_choice(names, n, i),
    ensures
        names[i] == n,
{
    let k = choose|k: int| 0 <= k < names.len() && names[k] == n;
    assert(exactly(n)(names[k]));
}

/// `n` stands in the name, between something and something more.
pub open spec fn holds(name: Seq<char>, n: Seq<char>) -> bool {
    exists|a: Seq<char>, b: Seq<char>| name == #[trigger] ((a + n) + b)
}

/// The name begins as those of converting devices do, letter by letter.
pub open spec fn is_plug(name: Seq<char>) -> bool {
    name.len() >= 7 && name.take(7) == seq!['p', 'l', 'u', 'g', 'h', 'w', ':']
}

proof fn plug_prefix(name: Seq<char>)
    ensures
        "plughw:"@.is_prefix_of(name) <==> is_plug(name),
{
    reveal_strlit("plughw:");
    let p = seq!['p', 'l', 'u', 'g', 'h', 'w', ':'];
    assert("plughw:"@ =~= p);
    if p.is_prefix_of(name) {
        assert(name.take(7) =~= p);
    }
    if is_plug(name) {
        assert(p =~= name.subrange(0, 7));
    }
}

/// The device that is chosen for a name holds the name. Where some device has just
/// that name, the first such is chosen; where none has, but a converting device
/// holds it, the first such; and the first that holds it otherwise. There is a
/// choice exactly where some device holds the name.
pub proof fn choice_follows_preference(names: Seq<Seq<char>>, n: Seq<char>, i: int)
    ensures
        any_name(names, matching(n)) <==> exists|k: int|
            0 <= k < names.len() && holds(#[trigger] names[k], n),
        is_choice(names, n, i) ==> {
            let exact = exists|k: int| 0 <= k < names.len() && #[trigger] names[k] == n;
            let plug = exists|k: int|
                0 <= k < names.len() && holds(#[trigger] names[k], n) && is_plug(names[k]);
            &&& 0 <= i < names.len()
            &&& holds(names[i], n)
            &&& exact ==> names[i] == n
            &&& !exact && plug ==> is_plug(names[i])
            &&& forall|k: int|
                0 <= k < i ==> {
                    &&& #[trigger] names[k] != n
                    &&& !exact && plug ==> !(holds(names[k], n) && is_plug(names[k]))
                    &&& !exact && !plug ==> !holds(names[k], n)
                }
        },
{
    assert forall|k: int| 0 <= k < names.len() implies (matching(n)(#[trigger] names[k])
        <==> holds(names[k], n)) && (converting(n)(names[k]) <==> holds(names[k], n) && is_plug(
        names[k],
    )) && (exactly(n)(names[k]) <==> names[k] == n) by {
        occurring_is_standing_in_between(n, names[k]);
        plug_prefix(names[k]);
    }
    if any_name(names, matching(n)) {
        let k = choose|k: int| 0 <= k < names.len() && matching(n)(#[trigger] names[k]);
        assert(holds(names[k], n));
    }
    if exists|k: int| 0 <= k < names.len() && holds(#[trigger] names[k], n) {
        let k = choose|k: int| 0 <= k < names.len() && holds(#[trigger] names[k], n);
        assert(matching(n)(names[k]));
    }
    if is_choice(names, n, i) {
        let exact = exists|k: int| 0 <= k < names.len() && #[trigger] names[k] == n;
        let plug = exists|k: int|
            0 <= k < names.len() && holds(#[trigger] names[k], n) && is_plug(names[k]);
        if exact {
            let k = choose|k: int| 0 <= k < names.len() && #[trigger] names[k] == n;
            assert(exactly(n)(names[k]));
        }
        if any_name(names, exactly(n)) {
            let k = choose|k: int| 0 <= k < names.len() && exactly(n)(#[trigger] names[k]);
            assert(names[k] == n);
        }
        if plug {
            let k = choose|k: int|
                0 <= k < names.len() && holds(#[trigger] names[k], n) && is_plug(names[k]);
            assert(converting(n)(names[k]));
        }
        if any_name(names, converting(n)) {
            let k = choose|k: int| 0 <= k < names.len() && converting(n)(#[trigger] names[k]);
            assert(holds(names[k], n) && is_plug(names[k]));
        }
        assert((Seq::<char>::empty() + n) + Seq::<char>::empty() =~= n);
        assert(holds(n, n));
        assert forall|k: int| 0 <= k < i implies {
            &&& #[trigger] names[k] != n
            &&& !exact && plug ==> !(holds(names[k], n) && is_plug(names[k]))
            &&& !exact && !plug ==> !holds(names[k], n)
        } by {
            if exact {
                assert(!exactly(n)(names[k]));
            } else if plug {
                assert(!converting(n)(names[k]));
            } else {
                assert(!matching(n)(names[k]));
            }
        }
    }
}

/// Without a name the system's default is opened, where there is one; with a name,
/// the device that it is the name of.
pub proof fn device_is_the_default_or_the_choice(
    name: Option<Seq<char>>,
    names: Seq<Seq<char>>,
    has_default: bool,
    choice: DeviceChoice,
)
    requires
        chosen_device(name, names, has_default, choice),
    ensures
        name is None <==> choice is Default,
        choice is Default ==> has_default,
        choice matches DeviceChoice::Named(c) ==> exists|i: int| #[trigger]
            is_choice(names, name->0, i) && names[i] == c@,
{
}

/// The greatest of a list is in it, and nothing in it is greater.
pub proof fn greatest_is_in_the_list(counts: Seq<u16>, m: u16)
    ensures
        is_greatest(counts, m) <==> (exists|i: int| 0 <= i < counts.len() && #[trigger] counts[i]
            == m) && forall|i: int| 0 <= i < counts.len() ==> (#[trigger] counts[i]) <= m,
{
}

/// The preferred rate is 48 kHz, and a device can run at it exactly where one of its
/// configurations spans it, ends and all.
pub proof fn preferred_rate_is_spanned(ranges: Seq<(u32, u32)>)
    ensures
        PREFERRED_RATE == 48_000,
        supports_preferred(ranges) <==> exists|i: int|
            0 <= i < ranges.len() && (#[trigger] ranges[i]).0 <= 48_000 && 48_000 <= ranges[i].1,
{
}

/// Devices are listed in the order in which each was first enumerated: where one
/// stands in front of another in the list, it comes up in the enumeration before
/// the other does for the first time.
pub proof fn listing_keeps_the_order(names: Seq<Seq<char>>, i: int, j: int)
    requires
        0 <= i < j < first_mentions(names).len(),
    ensures
        exists|p: int|
            {
                &&& 0 <= p < names.len()
                &&& #[trigger] names[p] == first_mentions(names)[i]
                &&& forall|q: int| 0 <= q <= p ==> #[trigger] names[q] != first_mentions(names)[j]
            },
    decreases names.len(),
{
    let front = names.drop_last();
    let f = first_mentions(front);
    first_mentions_keeps(front, names.last());
    if j < f.len() {
        listing_keeps_the_order(front, i, j);
        let p = choose|p: int|
            {
                &&& 0 <= p < front.len()
                &&& #[trigger] front[p] == f[i]
                &&& forall|q: int| 0 <= q <= p ==> #[trigger] front[q] != f[j]
            };
        assert(names[p] == front[p]);
        assert forall|q: int| 0 <= q <= p implies #[trigger] names[q] != first_mentions(
            names,
        )[j] by {
            assert(front[q] != f[j]);
        }
    } else {
        first_mentions_keeps(front, f[i]);
        assert(f.contains(f[i]));
        let p = choose|p: int| 0 <= p < front.len() && front[p] == f[i];
        assert(names[p] == f[i]);
        assert forall|q: int| 0 <= q <= p implies #[trigger] names[q] != first_mentions(
            names,
        )[j] by {
            assert(front[q] == names[q]);
            assert(!front.contains(names.last()));
        }
    }
}

/// Every message about an input (or an output) device that is not there is worded
/// with `p` around the name.
pub open spec fn misses_worded(input: bool, p: Seq<Seq<char>>) -> bool {
    if input {
        forall|n: String|
            (#[trigger] AudioError::NoInputMatching(n).text()) == p[0] + n@ + p[1]
    } else {
        forall|n: String|
            (#[trigger] AudioError::NoOutputMatching(n).text()) == p[0] + n@ + p[1]
    }
}

/// The messages about devices that are not there are worded alike, whatever the
/// name, and the name stands there in full.
pub proof fn device_messages_are_worded_alike()
    ensures
        exists|p: Seq<Seq<char>>| #[trigger] misses_worded(true, p),
        exists|p: Seq<Seq<char>>| #[trigger] misses_worded(false, p),
{
    assert(misses_worded(true, seq!["no input device matching '"@, "'"@]));
    assert(misses_worded(false, seq!["no output device matching '"@, "'"@]));
}

} // verus!
