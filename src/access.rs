use vstd::prelude::*;
use vstd::string::StrSliceExecFns;

verus! {

/// Travel mode bit for cars.
pub const FLAG_CAR: u8 = 1;
/// Travel mode bit for bicycles.
pub const FLAG_BIKE: u8 = 2;
/// Travel mode bit for pedestrians.
pub const FLAG_WALK: u8 = 4;

/// Whether a query for `vehicle` may use an edge carrying `access`.
pub open spec fn permits(vehicle: u8, access: u8) -> bool {
    vehicle & access != 0
}

/// Whether the vehicle mask `vehicle` may traverse an edge with `access` flags.
pub fn allows(vehicle: u8, access: u8) -> (r: bool)
    ensures
        r == permits(vehicle, access),
{
    vehicle & access != 0
}

/// Access flags and speed (millimetres per second) of a kept way.
#[derive(Clone, Copy, Debug, PartialEq, Eq, Structural)]
pub struct WayConstraints {
    pub access: u8,
    pub speed: u64,
}

/// An OSM tag.
#[derive(Clone, Debug)]
pub struct Tag {
    pub key: String,
    pub value: String,
}

/// An OSM way: its id, the ids of its nodes in order, and its tags.
#[derive(Clone, Debug)]
pub struct Way {
    pub id: i64,
    pub nodes: Vec<i64>,
    pub tags: Vec<Tag>,
}

/// Direction of travel allowed on a way.
#[derive(Clone, Copy, Debug, PartialEq, Eq, Structural)]
pub enum OneWay {
    /// Both directions.
    NO,
    /// Along the node order only.
    YES,
    /// Against the node order only.
    REVERSE,
}

/// Value of the first tag of `tags` whose key is `key`.
pub open spec fn tag_value(tags: Seq<Tag>, key: Seq<char>) -> Option<Seq<char>>
    decreases tags.len(),
{
    if tags.len() == 0 {
        None
    } else if tags[0].key@ == key {
        Some(tags[0].value@)
    } else {
        tag_value(tags.drop_first(), key)
    }
}

/// `tags` hold `key=value`.
pub open spec fn has_tag(tags: Seq<Tag>, key: Seq<char>, value: Seq<char>) -> bool {
    tag_value(tags, key) == Some(value)
}

/// Whether `a` and `b` hold the same characters.
pub fn str_eq(a: &str, b: &str) -> (r: bool)
    ensures
        r == (a@ == b@),
{
    let n = a.unicode_len();
    if n != b.unicode_len() {
        return false;
    }
    let mut i: usize = 0;
    while i < n
        invariant
            n == a@.len() == b@.len(),
            0 <= i <= n,
            forall|j: int| 0 <= j < i ==> a@[j] == b@[j],
        decreases n - i,
    {
        if a.get_char(i) != b.get_char(i) {
            return false;
        }
        i += 1;
    }
    assert(a@ =~= b@);
    true
}

/// Value of the tag `key` of `tags`, if any.
pub fn find_tag<'a>(tags: &'a Vec<Tag>, key: &str) -> (r: Option<&'a String>)
    ensures
        r matches Some(v) ==> tag_value(tags@, key@) == Some(v@),
        r is None ==> tag_value(tags@, key@) is None,
{
    let mut i: usize = 0;
    assert(tags@.subrange(0, tags@.len() as int) =~= tags@);
    while i < tags.len()
        invariant
            0 <= i <= tags@.len(),
            tag_value(tags@, key@) == tag_value(tags@.subrange(i as int, tags@.len() as int), key@),
        decreases tags@.len() - i,
    {
        proof {
            let rest = tags@.subrange(i as int, tags@.len() as int);
            assert(rest.drop_first() =~= tags@.subrange(i + 1, tags@.len() as int));
            assert(rest[0] == tags@[i as int]);
        }
        if str_eq(tags[i].key.as_str(), key) {
            return Some(&tags[i].value);
        }
        i += 1;
    }
    None
}

/// Whether `way` carries the tag `key=value`.
pub fn check_key_and_value(way: &Way, key: &str, value: &str) -> (r: bool)
    ensures
        r == has_tag(way.tags@, key@, value@),
{
    match find_tag(&way.tags, key) {
        Some(entry) => str_eq(entry.as_str(), value),
        None => false,
    }
}

pub open spec fn bike_denied_spec(tags: Seq<Tag>) -> bool {
    has_tag(tags, "motorroad"@, "true"@) || has_tag(tags, "bicycle"@, "false"@)
}

pub open spec fn walk_denied_spec(tags: Seq<Tag>) -> bool {
    has_tag(tags, "motorroad"@, "true"@) || has_tag(tags, "foot"@, "false"@)
}

/// Bicycles are barred from `way` (`motorroad=true` or `bicycle=false`).
pub fn bike_denied(way: &Way) -> (r: bool)
    ensures
        r == bike_denied_spec(way.tags@),
{
    let motorroad = check_key_and_value(way, "motorroad", "true");
    let no_bike = check_key_and_value(way, "bicycle", "false");
    motorroad || no_bike
}

/// Pedestrians are barred from `way` (`motorroad=true` or `foot=false`).
pub fn walk_denied(way: &Way) -> (r: bool)
    ensures
        r == walk_denied_spec(way.tags@),
{
    let motorroad = check_key_and_value(way, "motorroad", "true");
    let no_walk = check_key_and_value(way, "foot", "false");
    motorroad || no_walk
}

pub open spec fn oneway_spec(tags: Seq<Tag>) -> OneWay {
    if has_tag(tags, "highway"@, "motorway"@) || has_tag(tags, "highway"@, "motorway_link"@)
        || has_tag(tags, "junction"@, "roundabout"@) {
        OneWay::YES
    } else {
        match tag_value(tags, "oneway"@) {
            Some(v) => if v == "true"@ || v == "1"@ || v == "yes"@ {
                OneWay::YES
            } else if v == "-1"@ || v == "reverse"@ {
                OneWay::REVERSE
            } else {
                OneWay::NO
            },
            None => OneWay::NO,
        }
    }
}

/// Direction of travel on `way`: motorways, their links and roundabouts are one-way;
/// otherwise the `oneway` tag decides.
pub fn check_oneway(way: &Way) -> (r: OneWay)
    ensures
        r == oneway_spec(way.tags@),
{
    let highway_1 = check_key_and_value(way, "highway", "motorway");
    let highway_2 = check_key_and_value(way, "highway", "motorway_link");
    let roundabout = check_key_and_value(way, "junction", "roundabout");
    if highway_1 || highway_2 || roundabout {
        return OneWay::YES;
    }
    match find_tag(&way.tags, "oneway") {
        Some(entry) => {
            let v = entry.as_str();
            if str_eq(v, "true") || str_eq(v, "1") || str_eq(v, "yes") {
                OneWay::YES
            } else if str_eq(v, "-1") || str_eq(v, "reverse") {
                OneWay::REVERSE
            } else {
                OneWay::NO
            }
        },
        None => OneWay::NO,
    }
}

/// Default access flags and speed (km/h) for a `highway` value.
pub open spec fn highway_spec(v: Seq<char>) -> Option<WayConstraints> {
    if v == "primary"@ {
        Some(WayConstraints { access: FLAG_CAR, speed: 130 })
    } else if v == "trunk"@ {
        Some(WayConstraints { access: FLAG_CAR, speed: 120 })
    } else if v == "motorway"@ {
        Some(WayConstraints { access: FLAG_CAR, speed: 100 })
    } else if v == "secondary"@ {
        Some(WayConstraints { access: FLAG_CAR | FLAG_BIKE | FLAG_WALK, speed: 100 })
    } else if v == "tertiary"@ {
        Some(WayConstraints { access: FLAG_CAR | FLAG_BIKE | FLAG_WALK, speed: 80 })
    } else if v == "unclassified"@ {
        Some(WayConstraints { access: FLAG_CAR | FLAG_BIKE | FLAG_WALK, speed: 50 })
    } else if v == "residential"@ {
        Some(WayConstraints { access: FLAG_CAR | FLAG_BIKE | FLAG_WALK, speed: 30 })
    } else if v == "service"@ {
        Some(WayConstraints { access: FLAG_CAR | FLAG_BIKE | FLAG_WALK, speed: 5 })
    } else if v == "motorway_link"@ {
        Some(WayConstraints { access: FLAG_CAR, speed: 80 })
    } else if v == "trunk_link"@ {
        Some(WayConstraints { access: FLAG_CAR, speed: 80 })
    } else if v == "primary_link"@ {
        Some(WayConstraints { access: FLAG_CAR, speed: 80 })
    } else if v == "secondary_link"@ {
        Some(WayConstraints { access: FLAG_CAR | FLAG_BIKE | FLAG_WALK, speed: 80 })
    } else if v == "tertiary_link"@ {
        Some(WayConstraints { access: FLAG_CAR | FLAG_BIKE | FLAG_WALK, speed: 80 })
    } else if v == "living_street"@ {
        Some(WayConstraints { access: FLAG_CAR | FLAG_BIKE | FLAG_WALK, speed: 5 })
    } else if v == "pedestrian"@ {
        Some(WayConstraints { access: FLAG_WALK, speed: 5 })
    } else if v == "track"@ {
        Some(WayConstraints { access: FLAG_CAR | FLAG_BIKE | FLAG_WALK, speed: 10 })
    } else if v == "bus_guide_way"@ {
        Some(WayConstraints { access: FLAG_CAR | FLAG_BIKE | FLAG_WALK, speed: 5 })
    } else if v == "raceway"@ {
        Some(WayConstraints { access: FLAG_CAR, speed: 300 })
    } else if v == "road"@ {
        Some(WayConstraints { access: FLAG_CAR | FLAG_BIKE | FLAG_WALK, speed: 5 })
    } else if v == "footway"@ {
        Some(WayConstraints { access: FLAG_BIKE | FLAG_WALK, speed: 5 })
    } else if v == "bridleway"@ {
        Some(WayConstraints { access: FLAG_CAR | FLAG_BIKE | FLAG_WALK, speed: 5 })
    } else if v == "steps"@ {
        Some(WayConstraints { access: FLAG_WALK, speed: 5 })
    } else if v == "path"@ {
        Some(WayConstraints { access: FLAG_BIKE | FLAG_WALK, speed: 5 })
    } else if v == "cycleway"@ {
        Some(WayConstraints { access: FLAG_BIKE, speed: 5 })
    } else if v == "bus_stop"@ {
        Some(WayConstraints { access: FLAG_CAR | FLAG_BIKE | FLAG_WALK, speed: 5 })
    } else if v == "platform"@ {
        Some(WayConstraints { access: FLAG_WALK, speed: 5 })
    } else {
        None
    }
}

/// Default access flags and speed (km/h) for the `highway` value `value`, if it is routable.
pub fn init_filter_lists(value: &str) -> (r: Option<WayConstraints>)
    ensures
        r == highway_spec(value@),
{
    if str_eq(value, "primary") {
        Some(WayConstraints { access: FLAG_CAR, speed: 130 })
    } else if str_eq(value, "trunk") {
        Some(WayConstraints { access: FLAG_CAR, speed: 120 })
    } else if str_eq(value, "motorway") {
        Some(WayConstraints { access: FLAG_CAR, speed: 100 })
    } else if str_eq(value, "secondary") {
        Some(WayConstraints { access: FLAG_CAR | FLAG_BIKE | FLAG_WALK, speed: 100 })
    } else if str_eq(value, "tertiary") {
        Some(WayConstraints { access: FLAG_CAR | FLAG_BIKE | FLAG_WALK, speed: 80 })
    } else if str_eq(value, "unclassified") {
        Some(WayConstraints { access: FLAG_CAR | FLAG_BIKE | FLAG_WALK, speed: 50 })
    } else if str_eq(value, "residential") {
        Some(WayConstraints { access: FLAG_CAR | FLAG_BIKE | FLAG_WALK, speed: 30 })
    } else if str_eq(value, "service") {
        Some(WayConstraints { access: FLAG_CAR | FLAG_BIKE | FLAG_WALK, speed: 5 })
    } else if str_eq(value, "motorway_link") {
        Some(WayConstraints { access: FLAG_CAR, speed: 80 })
    } else if str_eq(value, "trunk_link") {
        Some(WayConstraints { access: FLAG_CAR, speed: 80 })
    } else if str_eq(value, "primary_link") {
        Some(WayConstraints { access: FLAG_CAR, speed: 80 })
    } else if str_eq(value, "secondary_link") {
        Some(WayConstraints { access: FLAG_CAR | FLAG_BIKE | FLAG_WALK, speed: 80 })
    } else if str_eq(value, "tertiary_link") {
        Some(WayConstraints { access: FLAG_CAR | FLAG_BIKE | FLAG_WALK, speed: 80 })
    } else if str_eq(value, "living_street") {
        Some(WayConstraints { access: FLAG_CAR | FLAG_BIKE | FLAG_WALK, speed: 5 })
    } else if str_eq(value, "pedestrian") {
        Some(WayConstraints { access: FLAG_WALK, speed: 5 })
    } else if str_eq(value, "track") {
        Some(WayConstraints { access: FLAG_CAR | FLAG_BIKE | FLAG_WALK, speed: 10 })
    } else if str_eq(value, "bus_guide_way") {
        Some(WayConstraints { access: FLAG_CAR | FLAG_BIKE | FLAG_WALK, speed: 5 })
    } else if str_eq(value, "raceway") {
        Some(WayConstraints { access: FLAG_CAR, speed: 300 })
    } else if str_eq(value, "road") {
        Some(WayConstraints { access: FLAG_CAR | FLAG_BIKE | FLAG_WALK, speed: 5 })
    } else if str_eq(value, "footway") {
        Some(WayConstraints { access: FLAG_BIKE | FLAG_WALK, speed: 5 })
    } else if str_eq(value, "bridleway") {
        Some(WayConstraints { access: FLAG_CAR | FLAG_BIKE | FLAG_WALK, speed: 5 })
    } else if str_eq(value, "steps") {
        Some(WayConstraints { access: FLAG_WALK, speed: 5 })
    } else if str_eq(value, "path") {
        Some(WayConstraints { access: FLAG_BIKE | FLAG_WALK, speed: 5 })
    } else if str_eq(value, "cycleway") {
        Some(WayConstraints { access: FLAG_BIKE, speed: 5 })
    } else if str_eq(value, "bus_stop") {
        Some(WayConstraints { access: FLAG_CAR | FLAG_BIKE | FLAG_WALK, speed: 5 })
    } else if str_eq(value, "platform") {
        Some(WayConstraints { access: FLAG_WALK, speed: 5 })
    } else {
        None
    }
}

/// `c` is white space in the sense of Unicode's `White_Space` property.
pub open spec fn is_space(c: char) -> bool {
    let x = c as u32;
    (9 <= x <= 13) || x == 32 || x == 0x85 || x == 0xA0 || x == 0x1680 || (0x2000 <= x <= 0x200A)
        || x == 0x2028 || x == 0x2029 || x == 0x202F || x == 0x205F || x == 0x3000
}

fn space(c: char) -> (r: bool)
    ensures
        r == is_space(c),
{
    let x = c as u32;
    (9 <= x && x <= 13) || x == 32 || x == 0x85 || x == 0xA0 || x == 0x1680 || (0x2000 <= x && x
        <= 0x200A) || x == 0x2028 || x == 0x2029 || x == 0x202F || x == 0x205F || x == 0x3000
}

/// First position at or after `i` that is not white space.
pub open spec fn skip_space(s: Seq<char>, i: int) -> int
    decreases s.len() - i,
{
    if 0 <= i < s.len() && is_space(s[i]) {
        skip_space(s, i + 1)
    } else {
        i
    }
}

/// First position at or after `i` that is white space (or the end).
pub open spec fn token_end(s: Seq<char>, i: int) -> int
    decreases s.len() - i,
{
    if 0 <= i < s.len() && !is_space(s[i]) {
        token_end(s, i + 1)
    } else {
        i
    }
}

pub open spec fn is_digit(c: char) -> bool {
    '0' <= c <= '9'
}

/// Decimal value of the digits `d`.
pub open spec fn digits_value(d: Seq<char>) -> nat
    decreases d.len(),
{
    if d.len() == 0 {
        0
    } else {
        digits_value(d.drop_last()) * 10 + (d.last() as nat - '0' as nat) as nat
    }
}

/// `tok` without a leading `+`.
pub open spec fn unsigned_part(tok: Seq<char>) -> Seq<char> {
    if tok.len() > 0 && tok[0] == '+' {
        tok.drop_first()
    } else {
        tok
    }
}

pub open spec fn all_digits(d: Seq<char>) -> bool {
    forall|i: int| 0 <= i < d.len() ==> is_digit(#[trigger] d[i])
}

/// A token read as a `u32`: an optional `+`, then one or more decimal digits, at most
/// `u32::MAX`.
pub open spec fn parse_u32_spec(tok: Seq<char>) -> Option<u32> {
    let d = unsigned_part(tok);
    if d.len() > 0 && all_digits(d) && digits_value(d) <= u32::MAX {
        Some(digits_value(d) as u32)
    } else {
        None
    }
}

/// A `maxspeed` value read as a positive number and whether its unit starts with `mph`.
pub open spec fn maxspeed_spec(s: Seq<char>) -> Option<(u32, bool)> {
    let a = skip_space(s, 0);
    let b = token_end(s, a);
    match parse_u32_spec(s.subrange(a, b)) {
        Some(v) => if v > 0 {
            let c = skip_space(s, b);
            let d = token_end(s, c);
            Some((v, d - c >= 3 && s[c] == 'm' && s[c + 1] == 'p' && s[c + 2] == 'h'))
        } else {
            None
        },
        None => None,
    }
}

/// `kmh` km/h in millimetres per second, rounded down.
pub open spec fn kmh_to_mm_s(kmh: int) -> int {
    kmh * 1000000 / 3600
}

/// `mph` mph (counted as 1.6 km/h each) in millimetres per second, rounded down.
pub open spec fn mph_to_mm_s(mph: int) -> int {
    mph * 1600000 / 3600
}

/// Speed in millimetres per second of a way with default `kmh` and tags `tags`.
pub open spec fn speed_spec(kmh: u64, tags: Seq<Tag>) -> int {
    match tag_value(tags, "maxspeed"@) {
        Some(m) => match maxspeed_spec(m) {
            Some((v, true)) => mph_to_mm_s(v as int),
            Some((v, false)) => kmh_to_mm_s(v as int),
            None => kmh_to_mm_s(kmh as int),
        },
        None => kmh_to_mm_s(kmh as int),
    }
}

proof fn lemma_digits_prefix(d: Seq<char>, k: int)
    requires
        0 <= k <= d.len(),
        forall|i: int| 0 <= i < d.len() ==> is_digit(#[trigger] d[i]),
    ensures
        digits_value(d.take(k)) <= digits_value(d),
    decreases d.len(),
{
    if k < d.len() {
        assert(d.drop_last().take(k) =~= d.take(k));
        assert forall|i: int| 0 <= i < d.drop_last().len() implies is_digit(#[trigger] d.drop_last()[i]) by {
            assert(d.drop_last()[i] == d[i]);
        }
        lemma_digits_prefix(d.drop_last(), k);
    } else {
        assert(d.take(k) =~= d);
    }
}

/// Skips white space in `s` from `i`.
fn skip_space_at(s: &str, i: usize) -> (r: usize)
    requires
        i <= s@.len(),
    ensures
        r == skip_space(s@, i as int),
        i <= r <= s@.len(),
{
    let n = s.unicode_len();
    let mut j = i;
    while j < n && space(s.get_char(j))
        invariant
            n == s@.len(),
            i <= j <= n,
            skip_space(s@, i as int) == skip_space(s@, j as int),
        decreases n - j,
    {
        j += 1;
    }
    j
}

/// Finds the end of the token of `s` that starts at `i`.
fn token_end_at(s: &str, i: usize) -> (r: usize)
    requires
        i <= s@.len(),
    ensures
        r == token_end(s@, i as int),
        i <= r <= s@.len(),
{
    let n = s.unicode_len();
    let mut j = i;
    while j < n && !space(s.get_char(j))
        invariant
            n == s@.len(),
            i <= j <= n,
            token_end(s@, i as int) == token_end(s@, j as int),
        decreases n - j,
    {
        j += 1;
    }
    j
}

/// Reads `s[from..to]` as a `u32`.
fn parse_u32_at(s: &str, from: usize, to: usize) -> (r: Option<u32>)
    requires
        from <= to <= s@.len(),
    ensures
        r == parse_u32_spec(s@.subrange(from as int, to as int)),
{
    let ghost tok = s@.subrange(from as int, to as int);
    let mut i = from;
    if i < to && s.get_char(i) == '+' {
        i += 1;
    }
    let ghost d = unsigned_part(tok);
    assert(d =~= s@.subrange(i as int, to as int));
    if i == to {
        return None;
    }
    let mut value: u64 = 0;
    let mut k = i;
    while k < to
        invariant
            i <= k <= to <= s@.len(),
            tok == s@.subrange(from as int, to as int),
            d == unsigned_part(tok),
            d =~= s@.subrange(i as int, to as int),
            forall|j: int| 0 <= j < k - i ==> is_digit(#[trigger] d[j]),
            value == digits_value(d.take(k - i)),
            value <= u32::MAX,
        decreases to - k,
    {
        let c = s.get_char(k);
        if !('0' <= c && c <= '9') {
            proof {
                assert(d[k - i] == c);
                assert(!is_digit(d[k - i]));
                assert(!(forall|j: int| 0 <= j < d.len() ==> is_digit(#[trigger] d[j])));
            }
            return None;
        }
        proof {
            assert(d.take(k - i + 1).drop_last() =~= d.take(k - i));
            assert(d.take(k - i + 1).last() == c);
        }
        let next: u64 = value * 10 + (c as u64 - '0' as u64);
        proof {
            assert(d[k - i] == c);
            assert(next == digits_value(d.take(k - i + 1)));
        }
        if next > u32::MAX as u64 {
            proof {
                assert forall|j: int| 0 <= j < k - i + 1 implies is_digit(#[trigger] d[j]) by {}
                if forall|j: int| 0 <= j < d.len() ==> is_digit(#[trigger] d[j]) {
                    lemma_digits_prefix(d, k - i + 1);
                    assert(digits_value(d) > u32::MAX);
                }
            }
            return None;
        }
        value = next;
        k += 1;
    }
    assert(d.take(d.len() as int) =~= d);
    Some(value as u32)
}

/// Reads a `maxspeed` value.
fn parse_maxspeed(s: &str) -> (r: Option<(u32, bool)>)
    ensures
        r == maxspeed_spec(s@),
{
    let a = skip_space_at(s, 0);
    let b = token_end_at(s, a);
    match parse_u32_at(s, a, b) {
        Some(v) => {
            if v > 0 {
                let c = skip_space_at(s, b);
                let d = token_end_at(s, c);
                let mph = d - c >= 3 && s.get_char(c) == 'm' && s.get_char(c + 1) == 'p' && s.get_char(c + 2) == 'h';
                Some((v, mph))
            } else {
                None
            }
        },
        None => None,
    }
}

/// Turns the default speed `data.speed` (km/h) into millimetres per second, taking a
/// positive `maxspeed` tag (`<n>` in km/h or `<n> mph`) over the default.
pub fn check_speed(data: &mut WayConstraints, way: &Way)
    requires
        old(data).speed <= u32::MAX,
    ensures
        final(data).access == old(data).access,
        final(data).speed == speed_spec(old(data).speed, way.tags@),
{
    let mut speed: u64 = kmh_mm_s(data.speed);
    if let Some(full_string) = find_tag(&way.tags, "maxspeed") {
        if let Some((v, mph)) = parse_maxspeed(full_string.as_str()) {
            if mph {
                speed = (v as u64) * 1600000 / 3600;
            } else {
                speed = kmh_mm_s(v as u64);
            }
        }
    }
    data.speed = speed;
}

fn kmh_mm_s(kmh: u64) -> (r: u64)
    requires
        kmh <= u32::MAX,
    ensures
        r == kmh_to_mm_s(kmh as int),
{
    kmh * 1000000 / 3600
}

pub open spec fn filter_way_spec(tags: Seq<Tag>) -> Option<WayConstraints> {
    match tag_value(tags, "highway"@) {
        Some(v) => match highway_spec(v) {
            Some(d) => {
                let a1 = if bike_denied_spec(tags) {
                    d.access & (FLAG_BIKE ^ 0xff)
                } else {
                    d.access
                };
                let a2 = if walk_denied_spec(tags) {
                    a1 & (FLAG_WALK ^ 0xff)
                } else {
                    a1
                };
                if a2 == 0 {
                    None
                } else {
                    Some(WayConstraints { access: a2, speed: speed_spec(d.speed, tags) as u64 })
                }
            },
            None => None,
        },
        None => None,
    }
}

/// Classifies a way: its access flags and speed (mm/s) if it is routable, from the
/// `highway` defaults adjusted by `motorroad`, `bicycle`, `foot` and `maxspeed`.
pub fn filter_way(way: &Way) -> (r: Option<WayConstraints>)
    ensures
        r == filter_way_spec(way.tags@),
        r matches Some(c) ==> c.access != 0,
{
    match find_tag(&way.tags, "highway") {
        Some(value) => {
            match init_filter_lists(value.as_str()) {
                Some(default_constraints) => {
                    let mut constraints = default_constraints;
                    if bike_denied(way) {
                        constraints.access = constraints.access & (FLAG_BIKE ^ 0xff);
                    }
                    if walk_denied(way) {
                        constraints.access = constraints.access & (FLAG_WALK ^ 0xff);
                    }
                    if constraints.access == 0 {
                        return None;
                    }
                    check_speed(&mut constraints, way);
                    Some(constraints)
                },
                None => None,
            }
        },
        None => None,
    }
}

} // verus!
