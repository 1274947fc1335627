//! User-room bindings: the proof code an admin hands out for a room (the
//! first bytes of an HMAC-SHA256 of the room id under the server's secret),
//! its normalization and constant-time check, and who may see or change a
//! binding.

use vstd::prelude::*;
use vstd::utf8::encode_utf8;
use crate::errors::{AppError, internal, unauthorized};
use crate::text::{compare_strs, concat_str, i64_to_decimal, int_decimal, str_chars, string_from_chars};

verus! {

/// The version of the binding proof scheme.
pub open spec fn proof_version() -> Seq<char> {
    "v1"@
}

/// The number of digest bytes a proof shows.
pub const BINDING_PROOF_BYTES: usize = 6;

/// What HMAC-SHA256 computes for a key and a message (`hmac::Hmac<Sha256>`).
pub uninterp spec fn hmac_sha256(key: Seq<u8>, msg: Seq<u8>) -> Seq<u8>;

/// HMAC-SHA256 of `msg` under `key`: `Hmac::<Sha256>::new_from_slice`,
/// `update`, `finalize`. The crate accepts keys of any length, so a MAC is
/// always produced; it has 32 bytes.
#[verifier::external_body]
fn hmac_sha256_digest(key: &[u8], msg: &[u8]) -> (r: Option<Vec<u8>>)
    ensures
        r is Some,
        r matches Some(d) ==> d@ == hmac_sha256(key@, msg@) && d@.len() == 32,
{
    match <hmac::Hmac<sha2::Sha256> as hmac::Mac>::new_from_slice(key) {
        Ok(mut mac) => {
            hmac::Mac::update(&mut mac, msg);
            Some(hmac::Mac::finalize(mac).into_bytes().to_vec())
        },
        Err(_) => None,
    }
}

/// The message signed for a room: `room-binding:v1:<roomid>`.
pub open spec fn binding_message(roomid: i32) -> Seq<u8> {
    encode_utf8("room-binding:v1:"@ + int_decimal(roomid as int))
}

/// Uppercase hexadecimal of bytes, two digits each.
pub open spec fn hex_upper_bytes(bs: Seq<u8>) -> Seq<char>
    decreases bs.len(),
{
    if bs.len() == 0 {
        Seq::empty()
    } else {
        hex_upper_bytes(bs.drop_last()) + seq![hex_digit_upper((bs.last() / 16) as int), hex_digit_upper((bs.last() % 16) as int)]
    }
}

/// The uppercase hexadecimal digit for `d` in `0..16`.
pub open spec fn hex_digit_upper(d: int) -> char {
    if d < 10 {
        (('0' as int) + d) as char
    } else {
        (('A' as int) + d - 10) as char
    }
}

/// The proof code of a room under `secret`: the first six bytes of the
/// room's MAC, in uppercase hexadecimal.
pub open spec fn spec_binding_proof(secret: Seq<u8>, roomid: i32) -> Seq<char> {
    hex_upper_bytes(hmac_sha256(secret, binding_message(roomid)).take(6))
}

fn hex_digit(d: u8) -> (c: char)
    requires
        d < 16,
    ensures
        c == hex_digit_upper(d as int),
{
    if d < 10 {
        (48u8 + d) as char
    } else {
        (55u8 + d) as char
    }
}

/// A digit or a capital `A` to `F`.
pub open spec fn is_upper_hex(c: char) -> bool {
    ('0' <= c && c <= '9') || ('A' <= c && c <= 'F')
}

proof fn lemma_hex_upper_bytes(bs: Seq<u8>)
    ensures
        hex_upper_bytes(bs).len() == 2 * bs.len(),
        forall|i: int| 0 <= i < hex_upper_bytes(bs).len() ==> is_upper_hex(#[trigger] hex_upper_bytes(bs)[i]),
    decreases bs.len(),
{
    if bs.len() > 0 {
        lemma_hex_upper_bytes(bs.drop_last());
        let p = hex_upper_bytes(bs.drop_last());
        let a = (bs.last() / 16) as int;
        let b = (bs.last() % 16) as int;
        assert(is_upper_hex(hex_digit_upper(a)));
        assert(is_upper_hex(hex_digit_upper(b)));
        assert forall|i: int| 0 <= i < hex_upper_bytes(bs).len() implies is_upper_hex(#[trigger] hex_upper_bytes(bs)[i]) by {
            if i < p.len() {
                assert(hex_upper_bytes(bs)[i] == p[i]);
            }
        }
    }
}

/// Normalizing text made of digits and capitals `A` to `F` leaves it as it
/// is.
pub proof fn lemma_normalize_upper_hex(s: Seq<char>)
    requires
        forall|i: int| 0 <= i < s.len() ==> is_upper_hex(#[trigger] s[i]),
    ensures
        spec_normalize_proof(s) == s,
    decreases s.len(),
{
    if s.len() > 0 {
        assert(is_upper_hex(s[s.len() - 1]));
        lemma_normalize_upper_hex(s.drop_last());
        assert(spec_normalize_proof(s.drop_last()) + seq![s.last()] =~= s);
    }
}

/// An issued proof code: twelve digits and capitals `A` to `F`, which
/// normalizing leaves unchanged.
pub proof fn law_issued_proof_is_normal_hex(secret: Seq<u8>, roomid: i32)
    requires
        hmac_sha256(secret, binding_message(roomid)).len() == 32,
    ensures
        spec_binding_proof(secret, roomid).len() == 12,
        forall|i: int|
            0 <= i < spec_binding_proof(secret, roomid).len() ==> is_upper_hex(
                #[trigger] spec_binding_proof(secret, roomid)[i],
            ),
        spec_normalize_proof(spec_binding_proof(secret, roomid)) == spec_binding_proof(secret, roomid),
{
    let mac = hmac_sha256(secret, binding_message(roomid)).take(6);
    lemma_hex_upper_bytes(mac);
    lemma_normalize_upper_hex(spec_binding_proof(secret, roomid));
}

/// The proof code of room `roomid` under the server's signing secret:
/// twelve digits and capitals `A` to `F`, unchanged by normalizing.
pub fn room_binding_proof(secret: &[u8], roomid: i32) -> (r: Result<String, AppError>)
    ensures
        r matches Ok(p) && p@ == spec_binding_proof(secret@, roomid),
        r matches Ok(p) && p@.len() == 12 && spec_normalize_proof(p@) == p@,
        r matches Ok(p) && forall|i: int| 0 <= i < p@.len() ==> is_upper_hex(#[trigger] p@[i]),
{
    let digits = i64_to_decimal(roomid as i64);
    let msg = concat_str("room-binding:v1:", digits.as_str());
    let digest = match hmac_sha256_digest(secret, msg.as_str().as_bytes()) {
        Some(d) => d,
        None => {
            return Err(internal("绑定证明码签名密钥无效"));
        },
    };
    let ghost mac = digest@;
    let mut out: Vec<char> = Vec::new();
    let mut i: usize = 0;
    proof {
        assert(mac.take(0) =~= Seq::<u8>::empty());
    }
    while i < BINDING_PROOF_BYTES
        invariant
            i <= 6,
            digest@ == mac,
            mac.len() == 32,
            out@ == hex_upper_bytes(mac.take(i as int)),
        decreases 6 - i,
    {
        let b = digest[i];
        proof {
            assert(mac.take(i as int + 1).drop_last() =~= mac.take(i as int));
        }
        out.push(hex_digit(b / 16));
        out.push(hex_digit(b % 16));
        i = i + 1;
    }
    proof {
        law_issued_proof_is_normal_hex(secret@, roomid);
    }
    Ok(string_from_chars(out.as_slice()))
}

/// What `char::to_uppercase` yields for a character (Unicode upper case,
/// one or more characters).
pub uninterp spec fn char_uppercase(c: char) -> Seq<char>;

/// The upper case of `c` as `char::to_uppercase` gives it: an ASCII
/// lower-case letter becomes its capital, any other ASCII character stays
/// as it is, and another character maps as Unicode says.
pub open spec fn spec_uppercase(c: char) -> Seq<char> {
    if 'a' <= c && c <= 'z' {
        seq![((c as int) - 32) as char]
    } else if (c as int) < 128 {
        seq![c]
    } else {
        char_uppercase(c)
    }
}

/// `c.to_uppercase()` collected. As std documents, ASCII letters
/// `a`..`z` become `A`..`Z` and the other ASCII characters are unchanged;
/// beyond ASCII the result is the Unicode mapping, named `char_uppercase`.
#[verifier::external_body]
fn uppercase_of(c: char) -> (r: Vec<char>)
    ensures
        r@ == spec_uppercase(c),
        (c as int) >= 128 ==> r@ == char_uppercase(c),
{
    c.to_uppercase().collect()
}

/// A proof code as typed, normalized: ASCII whitespace and `-` dropped, the
/// rest in upper case.
pub open spec fn spec_normalize_proof(s: Seq<char>) -> Seq<char>
    decreases s.len(),
{
    if s.len() == 0 {
        Seq::empty()
    } else {
        let c = s.last();
        spec_normalize_proof(s.drop_last()) + if c == ' ' || c == '\t' || c == '\n' || c == '\u{c}' || c == '\r' || c == '-' {
            Seq::<char>::empty()
        } else {
            spec_uppercase(c)
        }
    }
}

/// A character that normalizing keeps as it is: an ASCII character that is
/// neither whitespace, `-` nor a lower-case letter.
pub open spec fn is_normal_ascii(c: char) -> bool {
    (c as int) < 128 && !(c == ' ' || c == '\t' || c == '\n' || c == '\u{c}' || c == '\r' || c == '-') && !(
    'a' <= c && c <= 'z')
}

proof fn lemma_normalize_ascii_shape(s: Seq<char>)
    requires
        forall|i: int| 0 <= i < s.len() ==> (#[trigger] s[i] as int) < 128,
    ensures
        forall|i: int|
            0 <= i < spec_normalize_proof(s).len() ==> is_normal_ascii(#[trigger] spec_normalize_proof(s)[i]),
    decreases s.len(),
{
    if s.len() > 0 {
        let c = s[s.len() - 1];
        assert(s.drop_last().len() == s.len() - 1);
        assert forall|i: int| 0 <= i < s.drop_last().len() implies (#[trigger] s.drop_last()[i] as int) < 128 by {
            assert(s.drop_last()[i] == s[i]);
        }
        lemma_normalize_ascii_shape(s.drop_last());
        let p = spec_normalize_proof(s.drop_last());
        assert forall|i: int| 0 <= i < spec_normalize_proof(s).len() implies is_normal_ascii(
            #[trigger] spec_normalize_proof(s)[i],
        ) by {
            if i >= p.len() {
                assert((c as int) < 128);
                if 'a' <= c && c <= 'z' {
                    assert((((c as int) - 32) as char) as int == (c as int) - 32);
                }
            }
        }
    }
}

proof fn lemma_normalize_normal_ascii(t: Seq<char>)
    requires
        forall|i: int| 0 <= i < t.len() ==> is_normal_ascii(#[trigger] t[i]),
    ensures
        spec_normalize_proof(t) == t,
    decreases t.len(),
{
    if t.len() > 0 {
        assert(is_normal_ascii(t[t.len() - 1]));
        assert forall|i: int| 0 <= i < t.drop_last().len() implies is_normal_ascii(#[trigger] t.drop_last()[i]) by {
            assert(t.drop_last()[i] == t[i]);
        }
        lemma_normalize_normal_ascii(t.drop_last());
        assert(spec_normalize_proof(t.drop_last()) + seq![t.last()] =~= t);
    }
}

/// Normalizing an ASCII proof code again changes nothing: the normal form
/// of ASCII text holds no whitespace, no `-` and no lower-case letter.
pub proof fn law_normalize_ascii_is_stable(s: Seq<char>)
    requires
        forall|i: int| 0 <= i < s.len() ==> (#[trigger] s[i] as int) < 128,
    ensures
        spec_normalize_proof(spec_normalize_proof(s)) == spec_normalize_proof(s),
{
    lemma_normalize_ascii_shape(s);
    lemma_normalize_normal_ascii(spec_normalize_proof(s));
}

/// The normalized form of a typed proof code.
pub fn normalize_binding_proof(code: &str) -> (r: String)
    ensures
        r@ == spec_normalize_proof(code@),
{
    let cs = str_chars(code);
    let mut out: Vec<char> = Vec::new();
    let mut i: usize = 0;
    proof {
        assert(cs@.take(0) =~= Seq::<char>::empty());
    }
    while i < cs.len()
        invariant
            cs@ == code@,
            i <= cs@.len(),
            out@ == spec_normalize_proof(cs@.take(i as int)),
        decreases cs@.len() - i,
    {
        let c = cs[i];
        proof {
            assert(cs@.take(i as int + 1).drop_last() =~= cs@.take(i as int));
        }
        if !(c == ' ' || c == '\t' || c == '\n' || c == '\u{c}' || c == '\r' || c == '-') {
            let mut up = uppercase_of(c);
            let ghost before = out@;
            let ghost added = up@;
            out.append(&mut up);
            proof {
                assert(out@ =~= before + added);
            }
        } else {
            proof {
                assert(out@ =~= out@ + Seq::<char>::empty());
            }
        }
        i = i + 1;
    }
    proof {
        assert(cs@.take(cs@.len() as int) =~= cs@);
    }
    string_from_chars(out.as_slice())
}

/// The byte at `i` of `s`, or 0 past its end.
pub open spec fn byte_or_zero(s: Seq<u8>, i: int) -> u8 {
    if 0 <= i < s.len() {
        s[i]
    } else {
        0
    }
}

/// Whether two byte strings are equal, looking at every byte of the longer
/// one whatever the bytes are, so that the time taken does not tell where
/// they differ.
pub fn constant_time_eq(left: &[u8], right: &[u8]) -> (r: bool)
    ensures
        r == (left@ == right@),
{
    let mut diff: usize = left.len() ^ right.len();
    let len = if left.len() >= right.len() {
        left.len()
    } else {
        right.len()
    };
    proof {
        let a = left.len();
        let b = right.len();
        assert((a ^ b == 0) == (a == b)) by (bit_vector);
    }
    let mut index: usize = 0;
    while index < len
        invariant
            index <= len,
            len == (if left@.len() >= right@.len() {
                left@.len()
            } else {
                right@.len()
            }),
            (diff == 0) == (left@.len() == right@.len() && forall|j: int|
                0 <= j < index ==> byte_or_zero(left@, j) == byte_or_zero(right@, j)),
        decreases len - index,
    {
        let l: u8 = if index < left.len() {
            left[index]
        } else {
            0
        };
        let r: u8 = if index < right.len() {
            right[index]
        } else {
            0
        };
        let x: usize = (l ^ r) as usize;
        let ghost old_diff = diff;
        diff = diff | x;
        proof {
            assert((x == 0) == (l == r)) by (bit_vector)
                requires
                    x == (l ^ r) as usize,
            ;
            assert((diff == 0) == (old_diff == 0 && x == 0)) by (bit_vector)
                requires
                    diff == old_diff | x,
            ;
            assert(l == byte_or_zero(left@, index as int));
            assert(r == byte_or_zero(right@, index as int));
        }
        index = index + 1;
    }
    proof {
        if diff == 0 {
            assert forall|j: int| 0 <= j < left@.len() implies left@[j] == right@[j] by {
                assert(byte_or_zero(left@, j) == byte_or_zero(right@, j));
            }
            assert(left@ =~= right@);
        }
        if left@ == right@ {
            assert(forall|j: int| 0 <= j < index ==> byte_or_zero(left@, j) == byte_or_zero(right@, j));
        }
    }
    diff == 0
}

/// A proof code typed by a user opens the binding of room `roomid` when,
/// normalized, it equals the room's code; anything else is refused.
pub fn validate_binding_proof(secret: &[u8], roomid: i32, typed: Option<&str>) -> (r: Result<(), AppError>)
    ensures
        r is Ok <==> (typed matches Some(p) && spec_normalize_proof(p@).len() > 0 && spec_normalize_proof(p@)
            == spec_binding_proof(secret@, roomid)),
        r matches Err(e) ==> e is Forbidden,
{
    let provided = match typed {
        Some(p) => normalize_binding_proof(p),
        None => {
            return Err(AppError::Forbidden);
        },
    };
    let n = str_chars(provided.as_str());
    if n.len() == 0 {
        return Err(AppError::Forbidden);
    }
    let expected = match room_binding_proof(secret, roomid) {
        Ok(e) => e,
        Err(_) => {
            return Err(AppError::Forbidden);
        },
    };
    let same = constant_time_eq(provided.as_str().as_bytes(), expected.as_str().as_bytes());
    proof {
        vstd::utf8::encode_utf8_decode_utf8(provided@);
        vstd::utf8::encode_utf8_decode_utf8(expected@);
    }
    if same {
        Ok(())
    } else {
        Err(AppError::Forbidden)
    }
}

/// The reply to an admin asking for a room's proof code.
#[derive(Debug)]
pub struct BindingProofResponse {
    pub roomid: i32,
    pub binding_proof: String,
    pub proof_version: String,
}

/// The proof code reply for room `roomid`.
pub fn binding_proof_response(secret: &[u8], roomid: i32) -> (r: Result<BindingProofResponse, AppError>)
    ensures
        r matches Ok(resp) && resp.roomid == roomid && resp.binding_proof@ == spec_binding_proof(secret@, roomid)
            && resp.proof_version@ == proof_version(),
{
    let code = room_binding_proof(secret, roomid)?;
    Ok(BindingProofResponse { roomid, binding_proof: code, proof_version: "v1".to_owned() })
}

/// What a request does to a binding.
#[derive(Clone, Copy, PartialEq, Eq, Structural, Debug)]
pub enum BindingAction {
    View,
    Update,
    Delete,
}

/// The message refusing a user an action on another user's binding.
pub open spec fn spec_denied_message(action: BindingAction) -> Seq<char> {
    match action {
        BindingAction::View => "无权访问该绑定"@,
        BindingAction::Update => "无权修改该绑定"@,
        BindingAction::Delete => "无权删除该绑定"@,
    }
}

/// An admin may act on any binding; a user only on their own (the owner's
/// id, as text, must equal theirs).
pub fn check_binding_access(
    is_admin: bool,
    requester_id: Option<&str>,
    owner_id: &str,
    action: BindingAction,
) -> (r: Result<(), AppError>)
    ensures
        is_admin ==> r is Ok,
        !is_admin ==> match requester_id {
            None => r matches Err(AppError::Internal(m)) && m@ == "用户ID缺失"@,
            Some(u) => if u@ == owner_id@ {
                r is Ok
            } else {
                r matches Err(AppError::Unauthorized(m)) && m@ == spec_denied_message(action)
            },
        },
{
    if is_admin {
        return Ok(());
    }
    let u = match requester_id {
        Some(u) => u,
        None => {
            return Err(internal("用户ID缺失"));
        },
    };
    if compare_strs(owner_id, u) == 0 {
        Ok(())
    } else {
        match action {
            BindingAction::View => Err(unauthorized("无权访问该绑定")),
            BindingAction::Update => Err(unauthorized("无权修改该绑定")),
            BindingAction::Delete => Err(unauthorized("无权删除该绑定")),
        }
    }
}

/// A delete that removed no row found nothing.
pub fn delete_outcome(deleted: usize) -> (r: Result<(), AppError>)
    ensures
        deleted > 0 <==> r is Ok,
        r matches Err(e) ==> e is NotFound,
{
    if deleted > 0 {
        Ok(())
    } else {
        Err(AppError::NotFound)
    }
}

/// The index of the last room whose id is `roomid`.
pub open spec fn spec_last_room(rooms: Seq<i32>, roomid: i32) -> Option<int>
    decreases rooms.len(),
{
    if rooms.len() == 0 {
        None
    } else if rooms.last() == roomid {
        Some(rooms.len() - 1)
    } else {
        spec_last_room(rooms.drop_last(), roomid)
    }
}

fn last_room(room_ids: &[i32], target: i32) -> (r: Option<usize>)
    ensures
        match r {
            Some(i) => spec_last_room(room_ids@, target) == Some(i as int),
            None => spec_last_room(room_ids@, target) is None,
        },
{
    let mut i: usize = room_ids.len();
    proof {
        assert(room_ids@.take(room_ids@.len() as int) =~= room_ids@);
    }
    while i > 0
        invariant
            i <= room_ids@.len(),
            spec_last_room(room_ids@, target) == spec_last_room(room_ids@.take(i as int), target),
        decreases i,
    {
        proof {
            assert(room_ids@.take(i as int).drop_last() =~= room_ids@.take(i as int - 1));
        }
        if room_ids[i - 1] == target {
            return Some(i - 1);
        }
        i = i - 1;
    }
    None
}

/// For each binding's room id, the position of the room with that id among
/// the rooms fetched (the last one where several share it).
pub fn match_rooms(binding_roomids: &[i32], room_ids: &[i32]) -> (r: Vec<Option<usize>>)
    ensures
        r@.len() == binding_roomids@.len(),
        forall|k: int|
            0 <= k < r@.len() ==> match #[trigger] r@[k] {
                Some(i) => spec_last_room(room_ids@, binding_roomids@[k]) == Some(i as int),
                None => spec_last_room(room_ids@, binding_roomids@[k]) is None,
            },
{
    let mut out: Vec<Option<usize>> = Vec::new();
    let mut k: usize = 0;
    while k < binding_roomids.len()
        invariant
            k <= binding_roomids@.len(),
            out@.len() == k,
            forall|j: int|
                0 <= j < k ==> match #[trigger] out@[j] {
                    Some(i) => spec_last_room(room_ids@, binding_roomids@[j]) == Some(i as int),
                    None => spec_last_room(room_ids@, binding_roomids@[j]) is None,
                },
        decreases binding_roomids@.len() - k,
    {
        let found = last_room(room_ids, binding_roomids[k]);
        out.push(found);
        k = k + 1;
    }
    out
}

/// A binding of a user to a room, about to be created.
#[derive(Debug)]
pub struct NewUserRoomBinding {
    /// The user.
    pub user_id: u128,
    /// The room.
    pub roomid: i32,
    /// Whether the user is alerted about the room; `true` when the
    /// request names none.
    pub notification_enabled: bool,
}

impl NewUserRoomBinding {
    /// A new binding has no field rule to break: every one is valid.
    pub fn validate(&self) -> (r: Result<(), AppError>)
        ensures
            r is Ok,
    {
        Ok(())
    }
}

/// The request to bind the caller to a room.
#[derive(Debug)]
pub struct CreateBindingRequest {
    pub roomid: i32,
    /// `false` when the request names none.
    pub notification_enabled: bool,
    /// The room's proof code, as typed.
    pub binding_proof: Option<String>,
}

impl CreateBindingRequest {
    /// A request has no field rule to break: every one is valid.
    pub fn validate(&self) -> (r: Result<(), AppError>)
        ensures
            r is Ok,
    {
        Ok(())
    }
}

/// The request to switch a binding's alerts on or off.
#[derive(Debug)]
pub struct UpdateNotificationRequest {
    pub notification_enabled: bool,
}

} // verus!
