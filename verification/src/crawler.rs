//! Reading the crawled room tree: the cleaning of a JSON answer before it is
//! parsed, the walk of a parsed room tree (campus / building / floor /
//! room) into `(path, id)` pairs, and the filters and path building of the
//! level-by-level crawl.

use vstd::prelude::*;
use sonic_rs::{JsonContainerTrait, JsonValueTrait, Value};
use crate::room_data::RoomInfo;
use crate::text::{compare_strs, concat_str, is_whitespace, spec_trim, spec_trim_end, spec_trim_start, str_chars, string_from_chars, trim_str};

verus! {

/// A parsed JSON value.
#[derive(Debug)]
pub enum JsonValue {
    Null,
    Bool(bool),
    /// A number, as written.
    Number(String),
    Str(String),
    Array(Vec<JsonValue>),
    /// An object's members, in order.
    Object(Vec<JsonMember>),
}

/// A member of a JSON object.
#[derive(Debug)]
pub struct JsonMember {
    pub key: String,
    pub value: JsonValue,
}

/// The value of the first member named `key` of the members `m`.
pub open spec fn spec_member(m: Seq<JsonMember>, key: Seq<char>) -> Option<JsonValue>
    decreases m.len(),
{
    if m.len() == 0 {
        None
    } else if m[0].key@ == key {
        Some(m[0].value)
    } else {
        spec_member(m.drop_first(), key)
    }
}

/// `v[key]` read as a string: the text of member `key` of the object `v`
/// when that member is a string.
pub open spec fn spec_str_field(v: JsonValue, key: Seq<char>) -> Option<Seq<char>> {
    match v {
        JsonValue::Object(m) => match spec_member(m@, key) {
            Some(JsonValue::Str(s)) => Some(s@),
            _ => None,
        },
        _ => None,
    }
}

/// `v[key]` read as an array.
pub open spec fn spec_array_field(v: JsonValue, key: Seq<char>) -> Option<Seq<JsonValue>> {
    match v {
        JsonValue::Object(m) => match spec_member(m@, key) {
            Some(JsonValue::Array(a)) => Some(a@),
            _ => None,
        },
        _ => None,
    }
}

#[verifier::external_type_specification]
#[verifier::external_body]
pub struct ExSonicValue(sonic_rs::Value);

/// What `sonic_rs::from_str` makes of a text: the JSON value it denotes, or
/// nothing when the text is not JSON.
pub uninterp spec fn sonic_parse(text: Seq<char>) -> Option<JsonValue>;

/// The JSON value a parsed `sonic_rs::Value` holds; an object's members
/// are kept in the order of the text.
pub uninterp spec fn sonic_value(v: Value) -> JsonValue;

/// `sonic_rs::from_str::<Value>`: the parsed value, or nothing when the
/// text is not JSON.
#[verifier::external_body]
pub fn json_from_str(text: &str) -> (r: Option<Value>)
    ensures
        match r {
            Some(v) => sonic_parse(text@) == Some(sonic_value(v)),
            None => sonic_parse(text@) is None,
        },
{
    sonic_rs::from_str::<Value>(text).ok()
}

/// `v[key].as_str()`: sonic looks a key up as the first member with that
/// name, and gives a string member's text.
#[verifier::external_body]
fn value_field_str(v: &Value, key: &str) -> (r: Option<String>)
    ensures
        match r {
            Some(t) => spec_str_field(sonic_value(*v), key@) == Some(t@),
            None => spec_str_field(sonic_value(*v), key@) is None,
        },
{
    v.as_object().and_then(|o| o.get(&key)).and_then(|x| x.as_str()).map(|t| t.to_string())
}

/// `v[key].as_array()`'s length, when member `key` is an array.
#[verifier::external_body]
fn value_field_array_len(v: &Value, key: &str) -> (r: Option<usize>)
    ensures
        match spec_array_field(sonic_value(*v), key@) {
            Some(a) => r matches Some(k) && k == a.len(),
            None => r is None,
        },
{
    v.as_object().and_then(|o| o.get(&key)).and_then(|x| x.as_array()).map(|a| a.len())
}

/// `v[key].as_array()[i]`.
#[verifier::external_body]
fn value_field_array_item<'a>(v: &'a Value, key: &str, i: usize) -> (r: &'a Value)
    requires
        spec_array_field(sonic_value(*v), key@) matches Some(a) && i < a.len(),
    ensures
        sonic_value(*r) == spec_array_field(sonic_value(*v), key@)->0[i as int],
{
    &v.as_object().unwrap().get(&key).unwrap().as_array().unwrap()[i]
}

/// `v.as_str()`: the text of a string value, nothing for any other value.
#[verifier::external_body]
fn value_as_str(v: &Value) -> (r: Option<String>)
    ensures
        match sonic_value(*v) {
            JsonValue::Str(s) => r matches Some(t) && t@ == s@,
            _ => r is None,
        },
{
    v.as_str().map(|t| t.to_string())
}

/// `v.as_array()`'s length, when `v` is an array.
#[verifier::external_body]
fn value_array_len(v: &Value) -> (r: Option<usize>)
    ensures
        match sonic_value(*v) {
            JsonValue::Array(a) => r matches Some(k) && k == a@.len(),
            _ => r is None,
        },
{
    v.as_array().map(|a| a.len())
}

/// `v.as_array()[i]`.
#[verifier::external_body]
fn value_array_item<'a>(v: &'a Value, i: usize) -> (r: &'a Value)
    requires
        sonic_value(*v) matches JsonValue::Array(a) && i < a@.len(),
    ensures
        sonic_value(*r) == sonic_value(*v)->Array_0@[i as int],
{
    &v.as_array().unwrap()[i]
}

/// A `(path, id)` pair of the room tree.
pub type PathPair = (Seq<char>, Seq<char>);

/// The views of a list of `(path, id)` pairs.
pub open spec fn pair_views(v: Seq<(String, String)>) -> Seq<PathPair> {
    v.map_values(|p: (String, String)| (p.0@, p.1@))
}

/// The rooms of a floor's items under `prefix` (`<base>/<floor>`), or the
/// message of the first item that lacks its name or id.
pub open spec fn spec_floor_items(items: Seq<JsonValue>, prefix: Seq<char>) -> Result<Seq<PathPair>, Seq<char>>
    decreases items.len(),
{
    if items.len() == 0 {
        Ok(Seq::empty())
    } else {
        match spec_floor_items(items.drop_last(), prefix) {
            Err(e) => Err(e),
            Ok(prev) => match spec_str_field(items.last(), "Name"@) {
                None => Err("房间Name字段不存在"@),
                Some(name) => match spec_str_field(items.last(), "Value"@) {
                    None => Err("房间Value字段不存在"@),
                    Some(id) => Ok(prev.push((prefix + "/"@ + name, id))),
                },
            },
        }
    }
}

/// The rooms of a floor node under `base`.
pub open spec fn spec_floor(floor: JsonValue, base: Seq<char>) -> Result<Seq<PathPair>, Seq<char>> {
    match spec_str_field(floor, "Name"@) {
        None => Err("楼层Name字段不存在或非字符串"@),
        Some(name) => match spec_array_field(floor, "Items"@) {
            None => Err("楼层Items字段不存在或非数组"@),
            Some(items) => spec_floor_items(items, base + "/"@ + name),
        },
    }
}

/// The rooms of a building's floors under `base`, in order.
pub open spec fn spec_building_floors(floors: Seq<JsonValue>, base: Seq<char>) -> Result<Seq<PathPair>, Seq<char>>
    decreases floors.len(),
{
    if floors.len() == 0 {
        Ok(Seq::empty())
    } else {
        match spec_building_floors(floors.drop_last(), base) {
            Err(e) => Err(e),
            Ok(prev) => match spec_floor(floors.last(), base) {
                Err(e) => Err(e),
                Ok(rooms) => Ok(prev + rooms),
            },
        }
    }
}

/// The rooms of a building node under `base`.
pub open spec fn spec_building(building: JsonValue, base: Seq<char>) -> Result<Seq<PathPair>, Seq<char>> {
    match spec_str_field(building, "Name"@) {
        None => Err("楼栋Name字段不存在或非字符串"@),
        Some(name) => match spec_array_field(building, "Items"@) {
            None => Err("楼栋Items字段不存在或非数组"@),
            Some(floors) => spec_building_floors(floors, base + "/"@ + name),
        },
    }
}

/// The rooms of a campus's buildings, in order.
pub open spec fn spec_campus_buildings(buildings: Seq<JsonValue>, campus: Seq<char>) -> Result<Seq<PathPair>, Seq<char>>
    decreases buildings.len(),
{
    if buildings.len() == 0 {
        Ok(Seq::empty())
    } else {
        match spec_campus_buildings(buildings.drop_last(), campus) {
            Err(e) => Err(e),
            Ok(prev) => match spec_building(buildings.last(), campus) {
                Err(e) => Err(e),
                Ok(rooms) => Ok(prev + rooms),
            },
        }
    }
}

/// The rooms of a campus node.
pub open spec fn spec_campus(campus: JsonValue) -> Result<Seq<PathPair>, Seq<char>> {
    match spec_str_field(campus, "Name"@) {
        None => Err("校区Name字段不存在或非字符串"@),
        Some(name) => match spec_array_field(campus, "Items"@) {
            None => Err("校区Items字段不存在或非数组"@),
            Some(buildings) => spec_campus_buildings(buildings, name),
        },
    }
}

/// The rooms of the campuses, in order; a failing campus is reported as
/// `解析校区失败: <reason>`.
pub open spec fn spec_campuses(campuses: Seq<JsonValue>) -> Result<Seq<PathPair>, Seq<char>>
    decreases campuses.len(),
{
    if campuses.len() == 0 {
        Ok(Seq::empty())
    } else {
        match spec_campuses(campuses.drop_last()) {
            Err(e) => Err(e),
            Ok(prev) => match spec_campus(campuses.last()) {
                Err(e) => Err("解析校区失败: "@ + e),
                Ok(rooms) => Ok(prev + rooms),
            },
        }
    }
}

/// The `(path, id)` pairs of a whole room tree: an array of campuses.
pub open spec fn spec_room_tree(root: JsonValue) -> Result<Seq<PathPair>, Seq<char>> {
    match root {
        JsonValue::Array(campuses) => spec_campuses(campuses@),
        _ => Err("根节点应该是数组"@),
    }
}

/// The views of a parse result.
pub open spec fn result_view(r: Result<Vec<(String, String)>, String>) -> Result<Seq<PathPair>, Seq<char>> {
    match r {
        Ok(v) => Ok(pair_views(v@)),
        Err(e) => Err(e@),
    }
}

fn append_pairs(acc: &mut Vec<(String, String)>, more: &Vec<(String, String)>)
    ensures
        pair_views(final(acc)@) == pair_views(old(acc)@) + pair_views(more@),
{
    let ghost a0 = pair_views(acc@);
    let mut i: usize = 0;
    proof {
        assert(a0 + pair_views(more@).take(0) =~= a0);
    }
    while i < more.len()
        invariant
            i <= more@.len(),
            pair_views(acc@) == a0 + pair_views(more@).take(i as int),
        decreases more@.len() - i,
    {
        let p = (more[i].0.clone(), more[i].1.clone());
        let ghost prev = acc@;
        acc.push(p);
        proof {
            assert(pair_views(acc@) =~= pair_views(prev).push((p.0@, p.1@)));
            assert(pair_views(more@)[i as int] == (more@[i as int].0@, more@[i as int].1@));
            assert(pair_views(acc@) =~= a0 + pair_views(more@).take(i as int + 1));
        }
        i = i + 1;
    }
    proof {
        assert(pair_views(more@).take(more@.len() as int) =~= pair_views(more@));
    }
}

/// The rooms of a floor node under `base`: `<base>/<floor>/<room>` with the
/// room's id, for each room of the floor.
pub fn parse_floor_rooms(floor: &Value, base_path: &str) -> (r: Result<Vec<(String, String)>, String>)
    ensures
        result_view(r) == spec_floor(sonic_value(*floor), base_path@),
{
    let ghost fv = sonic_value(*floor);
    let floor_name = match value_field_str(floor, "Name") {
        Some(n) => n,
        None => {
            return Err("楼层Name字段不存在或非字符串".to_owned());
        },
    };
    let n = match value_field_array_len(floor, "Items") {
        Some(n) => n,
        None => {
            return Err("楼层Items字段不存在或非数组".to_owned());
        },
    };
    let ghost rooms = spec_array_field(fv, "Items"@)->0;
    let head = concat_str(base_path, "/");
    let prefix = concat_str(head.as_str(), floor_name.as_str());
    let mut result: Vec<(String, String)> = Vec::new();
    let mut i: usize = 0;
    proof {
        assert(rooms.take(0) =~= Seq::<JsonValue>::empty());
        assert(pair_views(result@) =~= Seq::<PathPair>::empty());
    }
    while i < n
        invariant
            fv == sonic_value(*floor),
            spec_array_field(fv, "Items"@) == Some(rooms),
            n == rooms.len(),
            i <= n,
            spec_floor_items(rooms.take(i as int), prefix@) == Ok::<Seq<PathPair>, Seq<char>>(pair_views(result@)),
            spec_floor(fv, base_path@) == spec_floor_items(rooms, prefix@),
        decreases n - i,
    {
        proof {
            assert(rooms.take(i as int + 1).drop_last() =~= rooms.take(i as int));
            lemma_floor_items_prefix_err(rooms, prefix@, i as int + 1);
        }
        let room = value_field_array_item(floor, "Items", i);
        let room_name = match value_field_str(room, "Name") {
            Some(n) => n,
            None => {
                return Err("房间Name字段不存在".to_owned());
            },
        };
        let roomid = match value_field_str(room, "Value") {
            Some(v) => v,
            None => {
                return Err("房间Value字段不存在".to_owned());
            },
        };
        let h = concat_str(prefix.as_str(), "/");
        let roompath = concat_str(h.as_str(), room_name.as_str());
        let ghost before = pair_views(result@);
        result.push((roompath, roomid));
        proof {
            assert(pair_views(result@) =~= before.push((prefix@ + "/"@ + room_name@, roomid@)));
        }
        i = i + 1;
    }
    proof {
        assert(rooms.take(rooms.len() as int) =~= rooms);
    }
    Ok(result)
}

/// An error in a prefix of the items is the error of all of them.
proof fn lemma_floor_items_prefix_err(items: Seq<JsonValue>, prefix: Seq<char>, n: int)
    requires
        0 <= n <= items.len(),
    ensures
        spec_floor_items(items.take(n), prefix) is Err ==> spec_floor_items(items, prefix) == spec_floor_items(
            items.take(n),
            prefix,
        ),
    decreases items.len() - n,
{
    if n < items.len() {
        lemma_floor_items_prefix_err(items.drop_last(), prefix, n);
        assert(items.drop_last().take(n) =~= items.take(n));
    } else {
        assert(items.take(n) =~= items);
    }
}

proof fn lemma_building_floors_prefix_err(floors: Seq<JsonValue>, base: Seq<char>, n: int)
    requires
        0 <= n <= floors.len(),
    ensures
        spec_building_floors(floors.take(n), base) is Err ==> spec_building_floors(floors, base)
            == spec_building_floors(floors.take(n), base),
    decreases floors.len() - n,
{
    if n < floors.len() {
        lemma_building_floors_prefix_err(floors.drop_last(), base, n);
        assert(floors.drop_last().take(n) =~= floors.take(n));
    } else {
        assert(floors.take(n) =~= floors);
    }
}

proof fn lemma_campus_buildings_prefix_err(buildings: Seq<JsonValue>, campus: Seq<char>, n: int)
    requires
        0 <= n <= buildings.len(),
    ensures
        spec_campus_buildings(buildings.take(n), campus) is Err ==> spec_campus_buildings(buildings, campus)
            == spec_campus_buildings(buildings.take(n), campus),
    decreases buildings.len() - n,
{
    if n < buildings.len() {
        lemma_campus_buildings_prefix_err(buildings.drop_last(), campus, n);
        assert(buildings.drop_last().take(n) =~= buildings.take(n));
    } else {
        assert(buildings.take(n) =~= buildings);
    }
}

proof fn lemma_campuses_prefix_err(campuses: Seq<JsonValue>, n: int)
    requires
        0 <= n <= campuses.len(),
    ensures
        spec_campuses(campuses.take(n)) is Err ==> spec_campuses(campuses) == spec_campuses(campuses.take(n)),
    decreases campuses.len() - n,
{
    if n < campuses.len() {
        lemma_campuses_prefix_err(campuses.drop_last(), n);
        assert(campuses.drop_last().take(n) =~= campuses.take(n));
    } else {
        assert(campuses.take(n) =~= campuses);
    }
}

/// The rooms of a building node under `base`, floor by floor.
pub fn parse_building_rooms(building: &Value, base_path: &str) -> (r: Result<Vec<(String, String)>, String>)
    ensures
        result_view(r) == spec_building(sonic_value(*building), base_path@),
{
    let ghost bv = sonic_value(*building);
    let building_name = match value_field_str(building, "Name") {
        Some(n) => n,
        None => {
            return Err("楼栋Name字段不存在或非字符串".to_owned());
        },
    };
    let n = match value_field_array_len(building, "Items") {
        Some(n) => n,
        None => {
            return Err("楼栋Items字段不存在或非数组".to_owned());
        },
    };
    let ghost floors = spec_array_field(bv, "Items"@)->0;
    let head = concat_str(base_path, "/");
    let full_base = concat_str(head.as_str(), building_name.as_str());
    let mut result: Vec<(String, String)> = Vec::new();
    let mut i: usize = 0;
    proof {
        assert(floors.take(0) =~= Seq::<JsonValue>::empty());
        assert(pair_views(result@) =~= Seq::<PathPair>::empty());
    }
    while i < n
        invariant
            bv == sonic_value(*building),
            spec_array_field(bv, "Items"@) == Some(floors),
            n == floors.len(),
            i <= n,
            spec_building_floors(floors.take(i as int), full_base@) == Ok::<Seq<PathPair>, Seq<char>>(pair_views(result@)),
            spec_building(bv, base_path@) == spec_building_floors(floors, full_base@),
        decreases n - i,
    {
        proof {
            assert(floors.take(i as int + 1).drop_last() =~= floors.take(i as int));
            lemma_building_floors_prefix_err(floors, full_base@, i as int + 1);
        }
        let floor = value_field_array_item(building, "Items", i);
        let rooms = parse_floor_rooms(floor, full_base.as_str());
        match rooms {
            Err(e) => {
                return Err(e);
            },
            Ok(rs) => {
                append_pairs(&mut result, &rs);
            },
        }
        i = i + 1;
    }
    proof {
        assert(floors.take(floors.len() as int) =~= floors);
    }
    Ok(result)
}

/// The rooms of a campus node, building by building.
pub fn parse_campus_rooms(campus: &Value) -> (r: Result<Vec<(String, String)>, String>)
    ensures
        result_view(r) == spec_campus(sonic_value(*campus)),
{
    let ghost cv = sonic_value(*campus);
    let campus_name = match value_field_str(campus, "Name") {
        Some(n) => n,
        None => {
            return Err("校区Name字段不存在或非字符串".to_owned());
        },
    };
    let n = match value_field_array_len(campus, "Items") {
        Some(n) => n,
        None => {
            return Err("校区Items字段不存在或非数组".to_owned());
        },
    };
    let ghost buildings = spec_array_field(cv, "Items"@)->0;
    let mut result: Vec<(String, String)> = Vec::new();
    let mut i: usize = 0;
    proof {
        assert(buildings.take(0) =~= Seq::<JsonValue>::empty());
        assert(pair_views(result@) =~= Seq::<PathPair>::empty());
    }
    while i < n
        invariant
            cv == sonic_value(*campus),
            spec_array_field(cv, "Items"@) == Some(buildings),
            n == buildings.len(),
            i <= n,
            spec_campus_buildings(buildings.take(i as int), campus_name@) == Ok::<Seq<PathPair>, Seq<char>>(
                pair_views(result@),
            ),
            spec_campus(cv) == spec_campus_buildings(buildings, campus_name@),
        decreases n - i,
    {
        proof {
            assert(buildings.take(i as int + 1).drop_last() =~= buildings.take(i as int));
            lemma_campus_buildings_prefix_err(buildings, campus_name@, i as int + 1);
        }
        let building = value_field_array_item(campus, "Items", i);
        let rooms = parse_building_rooms(building, campus_name.as_str());
        match rooms {
            Err(e) => {
                return Err(e);
            },
            Ok(rs) => {
                append_pairs(&mut result, &rs);
            },
        }
        i = i + 1;
    }
    proof {
        assert(buildings.take(buildings.len() as int) =~= buildings);
    }
    Ok(result)
}

/// The `(path, id)` pairs of a parsed room tree, campus by campus; the
/// root must be an array.
pub fn parse_room_tree_value(root: &Value) -> (r: Result<Vec<(String, String)>, String>)
    ensures
        result_view(r) == spec_room_tree(sonic_value(*root)),
{
    let ghost rv = sonic_value(*root);
    let n = match value_array_len(root) {
        Some(n) => n,
        None => {
            return Err("根节点应该是数组".to_owned());
        },
    };
    let ghost campuses = rv->Array_0@;
    let mut result: Vec<(String, String)> = Vec::new();
    let mut i: usize = 0;
    proof {
        assert(campuses.take(0) =~= Seq::<JsonValue>::empty());
        assert(pair_views(result@) =~= Seq::<PathPair>::empty());
    }
    while i < n
        invariant
            rv == sonic_value(*root),
            rv is Array,
            campuses == rv->Array_0@,
            n == campuses.len(),
            i <= n,
            spec_campuses(campuses.take(i as int)) == Ok::<Seq<PathPair>, Seq<char>>(pair_views(result@)),
            spec_room_tree(rv) == spec_campuses(campuses),
        decreases n - i,
    {
        proof {
            assert(campuses.take(i as int + 1).drop_last() =~= campuses.take(i as int));
            lemma_campuses_prefix_err(campuses, i as int + 1);
        }
        let campus = value_array_item(root, i);
        let rooms = parse_campus_rooms(campus);
        match rooms {
            Err(e) => {
                return Err(concat_str("解析校区失败: ", e.as_str()));
            },
            Ok(rs) => {
                append_pairs(&mut result, &rs);
            },
        }
        i = i + 1;
    }
    proof {
        assert(campuses.take(campuses.len() as int) =~= campuses);
    }
    Ok(result)
}

/// `s` without its leading byte-order marks (U+FEFF).
pub open spec fn spec_strip_bom(s: Seq<char>) -> Seq<char>
    decreases s.len(),
{
    if s.len() > 0 && s[0] == '\u{feff}' {
        spec_strip_bom(s.drop_first())
    } else {
        s
    }
}

/// The text of a JSON answer as it is parsed: without leading byte-order
/// marks and without surrounding whitespace.
pub fn clean_json_text(s: &str) -> (r: String)
    ensures
        r@ == spec_trim(spec_strip_bom(s@)),
{
    let cs = str_chars(s);
    let mut start: usize = 0;
    proof {
        assert(cs@.subrange(0, cs@.len() as int) =~= cs@);
    }
    while start < cs.len() && cs[start] == '\u{feff}'
        invariant
            cs@ == s@,
            start <= cs@.len(),
            spec_strip_bom(s@) == spec_strip_bom(cs@.subrange(start as int, cs@.len() as int)),
        decreases cs@.len() - start,
    {
        proof {
            let t = cs@.subrange(start as int, cs@.len() as int);
            assert(t.drop_first() =~= cs@.subrange(start as int + 1, cs@.len() as int));
        }
        start = start + 1;
    }
    let mut rest: Vec<char> = Vec::new();
    let mut i: usize = start;
    while i < cs.len()
        invariant
            start <= i <= cs@.len(),
            rest@ == cs@.subrange(start as int, i as int),
        decreases cs@.len() - i,
    {
        rest.push(cs[i]);
        proof {
            assert(rest@ =~= cs@.subrange(start as int, i as int + 1));
        }
        i = i + 1;
    }
    let stripped = string_from_chars(rest.as_slice());
    proof {
        assert(spec_strip_bom(cs@.subrange(start as int, cs@.len() as int)) == cs@.subrange(start as int, cs@.len() as int));
    }
    trim_str(stripped.as_str())
}

/// The value of a JSON answer. The text is parsed after removing leading
/// byte-order marks and surrounding whitespace; when it is a JSON string
/// whose contents are JSON themselves (a double-encoded answer), the value
/// is that of the contents, else the string itself.
pub open spec fn spec_safe_parse(raw: Seq<char>) -> Option<JsonValue> {
    match sonic_parse(spec_trim(spec_strip_bom(raw))) {
        Some(JsonValue::Str(s)) => match sonic_parse(s@) {
            Some(inner) => Some(inner),
            None => Some(JsonValue::Str(s)),
        },
        other => other,
    }
}

/// The value of a JSON answer (see `spec_safe_parse`); nothing when the
/// cleaned text is not JSON.
pub fn safe_parse(raw: &str) -> (r: Option<Value>)
    ensures
        match r {
            Some(v) => spec_safe_parse(raw@) == Some(sonic_value(v)),
            None => spec_safe_parse(raw@) is None,
        },
{
    let cleaned = clean_json_text(raw);
    match json_from_str(cleaned.as_str()) {
        None => None,
        Some(v) => match value_as_str(&v) {
            None => Some(v),
            Some(contents) => match json_from_str(contents.as_str()) {
                Some(inner) => Some(inner),
                None => Some(v),
            },
        },
    }
}

/// The `(path, id)` pairs of a room tree answer; text that is not JSON
/// fails with `JSON解析失败`.
pub fn parse_room_tree(raw: &str) -> (r: Result<Vec<(String, String)>, String>)
    ensures
        match spec_safe_parse(raw@) {
            None => r matches Err(e) && e@ == "JSON解析失败"@,
            Some(v) => result_view(r) == spec_room_tree(v),
        },
{
    match safe_parse(raw) {
        None => Err("JSON解析失败".to_owned()),
        Some(root) => parse_room_tree_value(&root),
    }
}

/// Every character of `w` is whitespace.
pub open spec fn all_whitespace(w: Seq<char>) -> bool {
    forall|i: int| 0 <= i < w.len() ==> is_whitespace(#[trigger] w[i])
}

proof fn lemma_trim_start_skips(w: Seq<char>, x: Seq<char>)
    requires
        all_whitespace(w),
    ensures
        spec_trim_start(w + x) == spec_trim_start(x),
    decreases w.len(),
{
    if w.len() > 0 {
        assert((w + x)[0] == w[0]);
        assert((w + x).drop_first() =~= w.drop_first() + x);
        lemma_trim_start_skips(w.drop_first(), x);
    } else {
        assert(w + x =~= x);
    }
}

proof fn lemma_trim_start_keeps_tail(t: Seq<char>, y: Seq<char>, k: int)
    requires
        0 <= k < t.len(),
        !is_whitespace(t[k]),
    ensures
        spec_trim_start(t + y) == spec_trim_start(t) + y,
    decreases t.len(),
{
    assert((t + y)[0] == t[0]);
    if is_whitespace(t[0]) {
        assert(k > 0);
        assert((t + y).drop_first() =~= t.drop_first() + y);
        assert(t.drop_first()[k - 1] == t[k]);
        lemma_trim_start_keeps_tail(t.drop_first(), y, k - 1);
    }
}

proof fn lemma_trim_end_skips(x: Seq<char>, w: Seq<char>)
    requires
        all_whitespace(w),
    ensures
        spec_trim_end(x + w) == spec_trim_end(x),
    decreases w.len(),
{
    if w.len() > 0 {
        assert((x + w).last() == w.last());
        assert((x + w).drop_last() =~= x + w.drop_last());
        lemma_trim_end_skips(x, w.drop_last());
    } else {
        assert(x + w =~= x);
    }
}

proof fn lemma_trim_start_all_whitespace(w: Seq<char>)
    requires
        all_whitespace(w),
    ensures
        spec_trim_start(w) == Seq::<char>::empty(),
{
    lemma_trim_start_skips(w, Seq::<char>::empty());
    assert(w + Seq::<char>::empty() =~= w);
}

/// Byte-order marks before an answer and whitespace around it leave its
/// parse unchanged: the text parsed is the same as for the bare answer
/// (one that does not itself start with a byte-order mark), and so is the
/// value it gives.
pub proof fn law_padding_leaves_parse_unchanged(text: Seq<char>, boms: nat, before: Seq<char>, after: Seq<char>)
    requires
        text.len() == 0 || text[0] != '\u{feff}',
        all_whitespace(before),
        all_whitespace(after),
    ensures
        spec_trim(spec_strip_bom(Seq::new(boms, |i: int| '\u{feff}') + before + text + after)) == spec_trim(
            spec_strip_bom(text),
        ),
        spec_safe_parse(Seq::new(boms, |i: int| '\u{feff}') + before + text + after) == spec_safe_parse(text),
    decreases boms,
{
    let body = before + text + after;
    if boms > 0 {
        let s = Seq::new(boms, |i: int| '\u{feff}') + body;
        assert(s.drop_first() =~= Seq::new((boms - 1) as nat, |i: int| '\u{feff}') + body);
        law_padding_leaves_parse_unchanged(text, (boms - 1) as nat, before, after);
        assert(Seq::new((boms - 1) as nat, |i: int| '\u{feff}') + before + text + after =~= Seq::new(
            (boms - 1) as nat,
            |i: int| '\u{feff}',
        ) + body);
        assert(Seq::new(boms, |i: int| '\u{feff}') + before + text + after =~= s);
    } else {
        assert(Seq::new(boms, |i: int| '\u{feff}') + before + text + after =~= body);
        assert(spec_strip_bom(body) == body) by {
            if body.len() > 0 {
                if before.len() > 0 {
                    assert(body[0] == before[0]);
                    assert(is_whitespace(before[0]));
                } else if text.len() > 0 {
                    assert(body[0] == text[0]);
                } else {
                    assert(body[0] == after[0]);
                    assert(is_whitespace(after[0]));
                }
            }
        }
        assert(spec_strip_bom(text) == text);
        assert(before + text + after =~= before + (text + after));
        lemma_trim_start_skips(before, text + after);
        if exists|k: int| 0 <= k < text.len() && !is_whitespace(text[k]) {
            let k = choose|k: int| 0 <= k < text.len() && !is_whitespace(text[k]);
            lemma_trim_start_keeps_tail(text, after, k);
            lemma_trim_end_skips(spec_trim_start(text), after);
        } else {
            assert(all_whitespace(text));
            assert(all_whitespace(text + after)) by {
                assert forall|i: int| 0 <= i < (text + after).len() implies is_whitespace(#[trigger] (text + after)[i]) by {
                    if i < text.len() {
                        assert((text + after)[i] == text[i]);
                    } else {
                        assert((text + after)[i] == after[i - text.len()]);
                    }
                }
            }
            lemma_trim_start_all_whitespace(text + after);
            lemma_trim_start_all_whitespace(text);
        }
    }
}

/// A campus as the crawl's first level lists it.
#[derive(Debug)]
pub struct SchoolComponent {
    pub school_id: Option<String>,
    pub school_name: Option<String>,
}

/// A building as the crawl's second level lists it.
#[derive(Debug)]
pub struct ApartmentComponent {
    pub apart_id: Option<String>,
    pub apart_name: Option<String>,
}

/// A room as the crawl's third level lists it.
#[derive(Debug)]
pub struct RoomListComponent {
    pub room_name: Option<String>,
    pub room_id: Option<String>,
}

/// A campus the crawl follows: it has an id and a name.
pub open spec fn campus_complete() -> spec_fn(SchoolComponent) -> bool {
    |c: SchoolComponent| c.school_id is Some && c.school_name is Some
}

/// The campuses that have both an id and a name, in order.
pub fn filter_campuses(campuses: Vec<SchoolComponent>) -> (r: Vec<SchoolComponent>)
    ensures
        r@ == campuses@.filter(campus_complete()),
{
    let mut out: Vec<SchoolComponent> = Vec::new();
    let mut rest = campuses;
    let ghost all = rest@;
    let ghost pred = campus_complete();
    let mut taken: usize = 0;
    let total = rest.len();
    proof {
        assert(all.take(0) =~= Seq::<SchoolComponent>::empty());
        assert(all.take(0).filter(pred) =~= Seq::<SchoolComponent>::empty());
    }
    while rest.len() > 0
        invariant
            pred == campus_complete(),
            total == all.len(),
            taken + rest@.len() == all.len(),
            rest@ == all.skip(taken as int),
            out@ == all.take(taken as int).filter(pred),
        decreases rest@.len(),
    {
        let c = rest.remove(0);
        proof {
            assert(c == all[taken as int]);
            assert(all.take(taken as int + 1).drop_last() =~= all.take(taken as int));
            all.take(taken as int).lemma_filter_push(all[taken as int], pred);
            assert(all.take(taken as int).push(all[taken as int]) =~= all.take(taken as int + 1));
            assert(rest@ =~= all.skip(taken as int + 1));
        }
        let keep = c.school_id.is_some() && c.school_name.is_some();
        proof {
            assert(keep == pred(c));
        }
        if keep {
            out.push(c);
        }
        taken = taken + 1;
    }
    proof {
        assert(all.take(all.len() as int) =~= all);
    }
    out
}

/// A building the crawl follows: it has an id and a name.
pub open spec fn building_complete() -> spec_fn(ApartmentComponent) -> bool {
    |b: ApartmentComponent| b.apart_id is Some && b.apart_name is Some
}

/// The buildings that have both an id and a name, in order.
pub fn filter_buildings(buildings: Vec<ApartmentComponent>) -> (r: Vec<ApartmentComponent>)
    ensures
        r@ == buildings@.filter(building_complete()),
{
    let mut out: Vec<ApartmentComponent> = Vec::new();
    let mut rest = buildings;
    let ghost all = rest@;
    let ghost pred = building_complete();
    let mut taken: usize = 0;
    let total = rest.len();
    proof {
        assert(all.take(0) =~= Seq::<ApartmentComponent>::empty());
        assert(all.take(0).filter(pred) =~= Seq::<ApartmentComponent>::empty());
    }
    while rest.len() > 0
        invariant
            pred == building_complete(),
            total == all.len(),
            taken + rest@.len() == all.len(),
            rest@ == all.skip(taken as int),
            out@ == all.take(taken as int).filter(pred),
        decreases rest@.len(),
    {
        let b = rest.remove(0);
        proof {
            assert(b == all[taken as int]);
            all.take(taken as int).lemma_filter_push(all[taken as int], pred);
            assert(all.take(taken as int).push(all[taken as int]) =~= all.take(taken as int + 1));
            assert(rest@ =~= all.skip(taken as int + 1));
        }
        let keep = b.apart_id.is_some() && b.apart_name.is_some();
        proof {
            assert(keep == pred(b));
        }
        if keep {
            out.push(b);
        }
        taken = taken + 1;
    }
    proof {
        assert(all.take(all.len() as int) =~= all);
    }
    out
}

/// `s.replace("//", "/")`: each `//`, read from the left, becomes `/`.
pub open spec fn spec_collapse_slashes(s: Seq<char>) -> Seq<char>
    decreases s.len(),
{
    if s.len() >= 2 && s[0] == '/' && s[1] == '/' {
        seq!['/'] + spec_collapse_slashes(s.skip(2))
    } else if s.len() >= 1 {
        seq![s[0]] + spec_collapse_slashes(s.skip(1))
    } else {
        Seq::empty()
    }
}

/// `s.replace("//", "/")`.
pub fn collapse_slashes(s: &str) -> (r: String)
    ensures
        r@ == spec_collapse_slashes(s@),
{
    let cs = str_chars(s);
    let mut out: Vec<char> = Vec::new();
    let mut i: usize = 0;
    proof {
        assert(cs@.skip(0) =~= cs@);
    }
    while i < cs.len()
        invariant
            cs@ == s@,
            i <= cs@.len(),
            out@ + spec_collapse_slashes(cs@.skip(i as int)) == spec_collapse_slashes(cs@),
        decreases cs@.len() - i,
    {
        let ghost rest = cs@.skip(i as int);
        let ghost o = out@;
        if i + 1 < cs.len() && cs[i] == '/' && cs[i + 1] == '/' {
            out.push('/');
            proof {
                assert(rest[0] == '/' && rest[1] == '/');
                assert(rest.skip(2) =~= cs@.skip(i as int + 2));
                assert(out@ + spec_collapse_slashes(cs@.skip(i as int + 2)) =~= o + (seq!['/'] + spec_collapse_slashes(rest.skip(2))));
            }
            i = i + 2;
        } else {
            out.push(cs[i]);
            proof {
                assert(rest[0] == cs@[i as int]);
                assert(rest.skip(1) =~= cs@.skip(i as int + 1));
                assert(out@ + spec_collapse_slashes(cs@.skip(i as int + 1)) =~= o + (seq![cs@[i as int]] + spec_collapse_slashes(rest.skip(1))));
            }
            i = i + 1;
        }
    }
    proof {
        assert(cs@.skip(i as int) =~= Seq::<char>::empty());
        assert(out@ + Seq::<char>::empty() =~= out@);
    }
    string_from_chars(out.as_slice())
}

/// The path of a building's rooms: `<campus>/<building>`.
pub fn building_room_path(campus_name: &str, apart_name: &str) -> (r: String)
    ensures
        r@ == campus_name@ + "/"@ + apart_name@,
{
    let h = concat_str(campus_name, "/");
    concat_str(h.as_str(), apart_name)
}

/// The room records of a building's room list under `room_path`: each room
/// with a name and an id, with path `<room_path>/<name>` where `//` becomes
/// `/`.
pub open spec fn spec_rooms_from_components(components: Seq<RoomListComponent>, room_path: Seq<char>) -> Seq<(Seq<char>, Seq<char>)>
    decreases components.len(),
{
    if components.len() == 0 {
        Seq::empty()
    } else {
        let prev = spec_rooms_from_components(components.drop_last(), room_path);
        let c = components.last();
        match (c.room_name, c.room_id) {
            (Some(n), Some(id)) => prev.push((spec_collapse_slashes(room_path + "/"@ + n@), id@)),
            _ => prev,
        }
    }
}

/// The views of room records.
pub open spec fn room_info_views(v: Seq<RoomInfo>) -> Seq<(Seq<char>, Seq<char>)> {
    v.map_values(|r: RoomInfo| (r.roompath@, r.roomid@))
}

/// The room records of a building's room list.
pub fn rooms_from_components(components: &Vec<RoomListComponent>, room_path: &str) -> (r: Vec<RoomInfo>)
    ensures
        room_info_views(r@) == spec_rooms_from_components(components@, room_path@),
{
    let mut out: Vec<RoomInfo> = Vec::new();
    let mut i: usize = 0;
    proof {
        assert(components@.take(0) =~= Seq::<RoomListComponent>::empty());
        assert(room_info_views(out@) =~= Seq::<(Seq<char>, Seq<char>)>::empty());
    }
    while i < components.len()
        invariant
            i <= components@.len(),
            room_info_views(out@) == spec_rooms_from_components(components@.take(i as int), room_path@),
        decreases components@.len() - i,
    {
        proof {
            assert(components@.take(i as int + 1).drop_last() =~= components@.take(i as int));
        }
        let c = &components[i];
        let ghost before = out@;
        match (&c.room_name, &c.room_id) {
            (Some(n), Some(id)) => {
                let h = concat_str(room_path, "/");
                let full = concat_str(h.as_str(), n.as_str());
                let path = collapse_slashes(full.as_str());
                out.push(RoomInfo { roompath: path, roomid: id.clone() });
                proof {
                    assert(room_info_views(out@) =~= room_info_views(before).push((path@, id@)));
                }
            },
            _ => {},
        }
        i = i + 1;
    }
    proof {
        assert(components@.take(components@.len() as int) =~= components@);
    }
    out
}

/// The rooms of all campuses in order; a campus whose crawl failed adds
/// none.
pub open spec fn spec_collect_rooms(results: Seq<Option<Vec<RoomInfo>>>) -> Seq<(Seq<char>, Seq<char>)>
    decreases results.len(),
{
    if results.len() == 0 {
        Seq::empty()
    } else {
        spec_collect_rooms(results.drop_last()) + match results.last() {
            Some(v) => room_info_views(v@),
            None => Seq::empty(),
        }
    }
}

/// The rooms of all campuses, each campus's rooms in order; a failed
/// campus (`None`) adds none.
pub fn collect_rooms(results: Vec<Option<Vec<RoomInfo>>>) -> (r: Vec<RoomInfo>)
    ensures
        room_info_views(r@) == spec_collect_rooms(results@),
{
    let ghost all = results@;
    let mut out: Vec<RoomInfo> = Vec::new();
    let mut rest = results;
    let mut taken: usize = 0;
    let total = rest.len();
    proof {
        assert(all.take(0) =~= Seq::<Option<Vec<RoomInfo>>>::empty());
        assert(room_info_views(out@) =~= Seq::<(Seq<char>, Seq<char>)>::empty());
    }
    while rest.len() > 0
        invariant
            total == all.len(),
            taken + rest@.len() == all.len(),
            rest@ == all.skip(taken as int),
            room_info_views(out@) == spec_collect_rooms(all.take(taken as int)),
        decreases rest@.len(),
    {
        let r = rest.remove(0);
        proof {
            assert(r == all[taken as int]);
            assert(all.take(taken as int + 1).drop_last() =~= all.take(taken as int));
            assert(rest@ =~= all.skip(taken as int + 1));
        }
        match r {
            Some(mut rooms) => {
                let ghost before = room_info_views(out@);
                let ghost added = room_info_views(rooms@);
                out.append(&mut rooms);
                proof {
                    assert(room_info_views(out@) =~= before + added);
                }
            },
            None => {
                proof {
                    assert(room_info_views(out@) =~= room_info_views(out@) + Seq::<(Seq<char>, Seq<char>)>::empty());
                }
            },
        }
        taken = taken + 1;
    }
    proof {
        assert(all.take(all.len() as int) =~= all);
    }
    out
}

/// The room service's answer envelope.
#[derive(Debug)]
pub struct ApiResponse {
    /// The status (`BS` on the wire; `1` means success).
    pub bs: Option<String>,
    /// The message (`Msg` on the wire).
    pub msg: Option<String>,
    pub total: Option<i32>,
    pub component: Option<Vec<RoomComponent>>,
}

/// A node of the room service's department tree.
#[derive(Debug)]
pub struct RoomComponent {
    pub room_dep_id: String,
    pub dep_name: String,
    pub is_building: Option<i32>,
    pub floor_list: Option<Vec<i32>>,
}

// ---------------------------------------------------------------------
// Laws of the room-tree walk: every level lists its children's rooms one
// after another, in document order, and stops at the first error.
// ---------------------------------------------------------------------

/// The rooms of two runs of a floor's items are the rooms of the first run
/// followed by those of the second; the first error wins.
pub proof fn law_floor_items_concat(a: Seq<JsonValue>, b: Seq<JsonValue>, prefix: Seq<char>)
    ensures
        spec_floor_items(a + b, prefix) == (match (spec_floor_items(a, prefix), spec_floor_items(b, prefix)) {
            (Err(e), _) => Err(e),
            (Ok(_), Err(e)) => Err(e),
            (Ok(x), Ok(y)) => Ok(x + y),
        }),
    decreases b.len(),
{
    if b.len() == 0 {
        assert(a + b =~= a);
        assert(forall|x: Seq<PathPair>| x + Seq::<PathPair>::empty() =~= x);
    } else {
        law_floor_items_concat(a, b.drop_last(), prefix);
        assert((a + b).drop_last() =~= a + b.drop_last());
        assert((a + b).last() == b.last());
        assert(forall|x: Seq<PathPair>, y: Seq<PathPair>, z: Seq<PathPair>| (x + y) + z =~= x + (y + z));
    }
}

/// The rooms of two runs of a building's floors are the rooms of the first
/// run followed by those of the second: no floor's rooms are lost or
/// replaced; the first error wins.
pub proof fn law_building_floors_concat(a: Seq<JsonValue>, b: Seq<JsonValue>, base: Seq<char>)
    ensures
        spec_building_floors(a + b, base) == (match (spec_building_floors(a, base), spec_building_floors(b, base)) {
            (Err(e), _) => Err(e),
            (Ok(_), Err(e)) => Err(e),
            (Ok(x), Ok(y)) => Ok(x + y),
        }),
    decreases b.len(),
{
    if b.len() == 0 {
        assert(a + b =~= a);
        assert(forall|x: Seq<PathPair>| x + Seq::<PathPair>::empty() =~= x);
    } else {
        law_building_floors_concat(a, b.drop_last(), base);
        assert((a + b).drop_last() =~= a + b.drop_last());
        assert((a + b).last() == b.last());
        assert(forall|x: Seq<PathPair>, y: Seq<PathPair>, z: Seq<PathPair>| (x + y) + z =~= x + (y + z));
    }
}

/// The rooms of two runs of a campus's buildings are the rooms of the first
/// run followed by those of the second; the first error wins.
pub proof fn law_campus_buildings_concat(a: Seq<JsonValue>, b: Seq<JsonValue>, campus: Seq<char>)
    ensures
        spec_campus_buildings(a + b, campus) == (match (spec_campus_buildings(a, campus), spec_campus_buildings(b, campus)) {
            (Err(e), _) => Err(e),
            (Ok(_), Err(e)) => Err(e),
            (Ok(x), Ok(y)) => Ok(x + y),
        }),
    decreases b.len(),
{
    if b.len() == 0 {
        assert(a + b =~= a);
        assert(forall|x: Seq<PathPair>| x + Seq::<PathPair>::empty() =~= x);
    } else {
        law_campus_buildings_concat(a, b.drop_last(), campus);
        assert((a + b).drop_last() =~= a + b.drop_last());
        assert((a + b).last() == b.last());
        assert(forall|x: Seq<PathPair>, y: Seq<PathPair>, z: Seq<PathPair>| (x + y) + z =~= x + (y + z));
    }
}

/// The rooms of two runs of campuses are the rooms of the first run
/// followed by those of the second; the first error wins.
pub proof fn law_campuses_concat(a: Seq<JsonValue>, b: Seq<JsonValue>)
    ensures
        spec_campuses(a + b) == (match (spec_campuses(a), spec_campuses(b)) {
            (Err(e), _) => Err(e),
            (Ok(_), Err(e)) => Err(e),
            (Ok(x), Ok(y)) => Ok(x + y),
        }),
    decreases b.len(),
{
    if b.len() == 0 {
        assert(a + b =~= a);
        assert(forall|x: Seq<PathPair>| x + Seq::<PathPair>::empty() =~= x);
    } else {
        law_campuses_concat(a, b.drop_last());
        assert((a + b).drop_last() =~= a + b.drop_last());
        assert((a + b).last() == b.last());
        assert(forall|x: Seq<PathPair>, y: Seq<PathPair>, z: Seq<PathPair>| (x + y) + z =~= x + (y + z));
    }
}

/// One room item under `prefix` gives exactly one pair: the path
/// `<prefix>/<Name>` and the id `Value`.
pub proof fn law_floor_item_single(item: JsonValue, prefix: Seq<char>)
    ensures
        match (spec_str_field(item, "Name"@), spec_str_field(item, "Value"@)) {
            (Some(name), Some(id)) => spec_floor_items(seq![item], prefix) == Ok::<Seq<PathPair>, Seq<char>>(
                seq![(prefix + "/"@ + name, id)],
            ),
            _ => true,
        },
        spec_str_field(item, "Name"@) is None || spec_str_field(item, "Value"@) is None ==> spec_floor_items(
            seq![item],
            prefix,
        ) is Err,
{
    let one = seq![item];
    assert(one.drop_last() =~= Seq::<JsonValue>::empty());
    assert(one.last() == item);
    assert(spec_floor_items(one.drop_last(), prefix) == Ok::<Seq<PathPair>, Seq<char>>(Seq::empty()));
    if let (Some(name), Some(id)) = (spec_str_field(item, "Name"@), spec_str_field(item, "Value"@)) {
        assert(spec_str_field(one.last(), "Name"@) == Some(name));
        assert(spec_str_field(one.last(), "Value"@) == Some(id));
        assert(spec_floor_items(one, prefix) == Ok::<Seq<PathPair>, Seq<char>>(
            Seq::<PathPair>::empty().push((prefix + "/"@ + name, id)),
        ));
        assert(Seq::<PathPair>::empty().push((prefix + "/"@ + name, id)) =~= seq![(prefix + "/"@ + name, id)]);
    }
}

/// A building of one floor has exactly that floor's rooms.
pub proof fn law_building_single_floor(floor: JsonValue, base: Seq<char>)
    ensures
        spec_building_floors(seq![floor], base) == spec_floor(floor, base),
{
    let one = seq![floor];
    assert(one.drop_last() =~= Seq::<JsonValue>::empty());
    assert(one.last() == floor);
    assert(spec_building_floors(one.drop_last(), base) == Ok::<Seq<PathPair>, Seq<char>>(Seq::empty()));
    if let Ok(rooms) = spec_floor(floor, base) {
        assert(Seq::<PathPair>::empty() + rooms =~= rooms);
    }
}

/// A campus of one building has exactly that building's rooms.
pub proof fn law_campus_single_building(building: JsonValue, campus: Seq<char>)
    ensures
        spec_campus_buildings(seq![building], campus) == spec_building(building, campus),
{
    let one = seq![building];
    assert(one.drop_last() =~= Seq::<JsonValue>::empty());
    assert(one.last() == building);
    assert(spec_campus_buildings(one.drop_last(), campus) == Ok::<Seq<PathPair>, Seq<char>>(Seq::empty()));
    if let Ok(rooms) = spec_building(building, campus) {
        assert(Seq::<PathPair>::empty() + rooms =~= rooms);
    }
}

/// A tree of one campus has exactly that campus's rooms; its error is
/// reported as `解析校区失败: <reason>`.
pub proof fn law_single_campus(campus: JsonValue)
    ensures
        spec_campuses(seq![campus]) == (match spec_campus(campus) {
            Ok(rooms) => Ok(rooms),
            Err(e) => Err("解析校区失败: "@ + e),
        }),
{
    let one = seq![campus];
    assert(one.drop_last() =~= Seq::<JsonValue>::empty());
    assert(one.last() == campus);
    assert(spec_campuses(one.drop_last()) == Ok::<Seq<PathPair>, Seq<char>>(Seq::empty()));
    if let Ok(rooms) = spec_campus(campus) {
        assert(Seq::<PathPair>::empty() + rooms =~= rooms);
    }
}

/// A room's path joins the names of its campus, building, floor and room
/// with `/`, and its id is the room's `Value`: a campus holding one
/// building of one floor with one room gives exactly that pair.
pub proof fn law_room_path_joins_names(campus: JsonValue, building: JsonValue, floor: JsonValue, item: JsonValue)
    requires
        spec_str_field(campus, "Name"@) is Some,
        spec_array_field(campus, "Items"@) == Some(seq![building]),
        spec_str_field(building, "Name"@) is Some,
        spec_array_field(building, "Items"@) == Some(seq![floor]),
        spec_str_field(floor, "Name"@) is Some,
        spec_array_field(floor, "Items"@) == Some(seq![item]),
        spec_str_field(item, "Name"@) is Some,
        spec_str_field(item, "Value"@) is Some,
    ensures
        spec_campus(campus) == Ok::<Seq<PathPair>, Seq<char>>(
            seq![
                (spec_str_field(campus, "Name"@)->0 + "/"@ + spec_str_field(building, "Name"@)->0 + "/"@
                    + spec_str_field(floor, "Name"@)->0 + "/"@ + spec_str_field(item, "Name"@)->0,
                spec_str_field(item, "Value"@)->0),
            ],
        ),
{
    let c = spec_str_field(campus, "Name"@)->0;
    let b = spec_str_field(building, "Name"@)->0;
    let f = spec_str_field(floor, "Name"@)->0;
    law_floor_item_single(item, c + "/"@ + b + "/"@ + f);
    law_building_single_floor(floor, c + "/"@ + b);
    law_campus_single_building(building, c);
}

} // verus!
