//! The domain entity held in the inbound-session tables, and the key codec
//! that maps its logical key to a physical key.
use vstd::prelude::*;

use crate::schema::TableId;

verus! {

/// The byte that separates the parts of an encoded key.
pub const KEY_SEPARATOR: u8 = 0x1f;

/// An inbound group session, as the record codec decodes it.
///
/// Its logical key is `(room_id, session_id)`.
#[derive(Debug)]
pub struct InboundSession {
    pub room_id: Vec<u8>,
    pub session_id: Vec<u8>,
    /// The pickled session material, carried through migrations unchanged.
    pub pickle: Vec<u8>,
    pub backed_up: bool,
}

/// The mathematical value of an `InboundSession`.
pub struct SessionView {
    pub room_id: Seq<u8>,
    pub session_id: Seq<u8>,
    pub pickle: Seq<u8>,
    pub backed_up: bool,
}

impl View for InboundSession {
    type V = SessionView;

    open spec fn view(&self) -> SessionView {
        SessionView {
            room_id: self.room_id@,
            session_id: self.session_id@,
            pickle: self.pickle@,
            backed_up: self.backed_up,
        }
    }
}

/// A copy of `v` with the same bytes.
pub fn copy_bytes(v: &Vec<u8>) -> (r: Vec<u8>)
    ensures
        r@ == v@,
{
    let r = v.clone();
    assert(r@ =~= v@);
    r
}

impl InboundSession {
    pub fn new(room_id: Vec<u8>, session_id: Vec<u8>, pickle: Vec<u8>, backed_up: bool) -> (r: Self)
        ensures
            r@ == (SessionView { room_id: room_id@, session_id: session_id@, pickle: pickle@, backed_up }),
    {
        InboundSession { room_id, session_id, pickle, backed_up }
    }

    /// A copy of the session with the same value.
    pub fn duplicate(&self) -> (r: Self)
        ensures
            r@ == self@,
    {
        InboundSession {
            room_id: copy_bytes(&self.room_id),
            session_id: copy_bytes(&self.session_id),
            pickle: copy_bytes(&self.pickle),
            backed_up: self.backed_up,
        }
    }
}

/// The byte that marks the next byte of a room id as literal.
pub const KEY_ESCAPE: u8 = 0x1e;

/// Whether `b` is escaped inside a room id.
pub open spec fn is_special(b: u8) -> bool {
    b == KEY_SEPARATOR || b == KEY_ESCAPE
}

/// A room id as it stands in a key: each separator or escape byte is
/// preceded by `KEY_ESCAPE`, and the whole is ended by `KEY_SEPARATOR`.
pub open spec fn escaped_part(p: Seq<u8>) -> Seq<u8>
    decreases p.len(),
{
    if p.len() == 0 {
        seq![KEY_SEPARATOR]
    } else if is_special(p[0]) {
        seq![KEY_ESCAPE, p[0]] + escaped_part(p.drop_first())
    } else {
        seq![p[0]] + escaped_part(p.drop_first())
    }
}

/// The physical key of the logical key `(room_id, session_id)` in `table`:
/// the escaped room id, then the session id.
///
/// This codec applies no confidentiality transform, so the key does not
/// depend on the table.
pub open spec fn spec_encode_key(table: TableId, room_id: Seq<u8>, session_id: Seq<u8>) -> Seq<u8> {
    escaped_part(room_id) + session_id
}

/// The key under which the current codec stores `s` in the inbound-session
/// table.
pub open spec fn canonical_key(s: SessionView) -> Seq<u8> {
    spec_encode_key(TableId::InboundGroupSessionsV2, s.room_id, s.session_id)
}

proof fn lemma_escaped_split(a: Seq<u8>, x: Seq<u8>, b: Seq<u8>, y: Seq<u8>)
    requires
        escaped_part(a) + x == escaped_part(b) + y,
    ensures
        a == b,
        x == y,
    decreases a.len(),
{
    let ea = escaped_part(a);
    let eb = escaped_part(b);
    assert((ea + x)[0] == (eb + y)[0]);
    if a.len() == 0 {
        assert(ea[0] == KEY_SEPARATOR);
        if b.len() > 0 {
            if is_special(b[0]) {
                assert(eb[0] == KEY_ESCAPE);
            } else {
                assert(eb[0] == b[0]);
            }
        }
        assert(x =~= (ea + x).subrange(1, (ea + x).len() as int));
        assert(y =~= (eb + y).subrange(1, (eb + y).len() as int));
        assert(a =~= b);
    } else if b.len() == 0 {
        assert(eb[0] == KEY_SEPARATOR);
        if is_special(a[0]) {
            assert(ea[0] == KEY_ESCAPE);
        } else {
            assert(ea[0] == a[0]);
        }
    } else {
        let ra = a.drop_first();
        let rb = b.drop_first();
        if is_special(a[0]) {
            assert(ea[0] == KEY_ESCAPE);
            if !is_special(b[0]) {
                assert(eb[0] == b[0]);
            }
            assert(is_special(b[0]));
            assert((ea + x)[1] == a[0]);
            assert((eb + y)[1] == b[0]);
            assert(escaped_part(ra) + x =~= (ea + x).subrange(2, (ea + x).len() as int));
            assert(escaped_part(rb) + y =~= (eb + y).subrange(2, (eb + y).len() as int));
        } else {
            assert(ea[0] == a[0]);
            if is_special(b[0]) {
                assert(eb[0] == KEY_ESCAPE);
            }
            assert(!is_special(b[0]));
            assert(escaped_part(ra) + x =~= (ea + x).subrange(1, (ea + x).len() as int));
            assert(escaped_part(rb) + y =~= (eb + y).subrange(1, (eb + y).len() as int));
        }
        lemma_escaped_split(ra, x, rb, y);
        assert(a =~= seq![a[0]] + ra);
        assert(b =~= seq![b[0]] + rb);
    }
}

/// Keys are unique: two logical keys with the same physical key in a table
/// are the same logical key.
pub proof fn lemma_encode_key_injective(
    table: TableId,
    room_a: Seq<u8>,
    session_a: Seq<u8>,
    room_b: Seq<u8>,
    session_b: Seq<u8>,
)
    requires
        spec_encode_key(table, room_a, session_a) == spec_encode_key(table, room_b, session_b),
    ensures
        room_a == room_b,
        session_a == session_b,
{
    lemma_escaped_split(room_a, session_a, room_b, session_b);
}

pub fn encode_key(table: TableId, room_id: &Vec<u8>, session_id: &Vec<u8>) -> (r: Vec<u8>)
    ensures
        r@ == spec_encode_key(table, room_id@, session_id@),
{
    let mut r: Vec<u8> = Vec::new();
    let n = room_id.len();
    let mut i: usize = 0;
    assert(room_id@.subrange(0, n as int) =~= room_id@);
    while i < n
        invariant
            n == room_id@.len(),
            i <= n,
            r@ + escaped_part(room_id@.subrange(i as int, n as int)) == escaped_part(room_id@),
        decreases n - i,
    {
        let ghost rest = room_id@.subrange(i as int, n as int);
        assert(rest.drop_first() =~= room_id@.subrange(i as int + 1, n as int));
        let b = room_id[i];
        if b == KEY_SEPARATOR || b == KEY_ESCAPE {
            r.push(KEY_ESCAPE);
            r.push(b);
            assert(r@ + escaped_part(rest.drop_first()) =~= (r@.drop_last().drop_last()
                + escaped_part(rest)));
        } else {
            r.push(b);
            assert(r@ + escaped_part(rest.drop_first()) =~= (r@.drop_last() + escaped_part(rest)));
        }
        i += 1;
    }
    assert(room_id@.subrange(n as int, n as int) =~= Seq::<u8>::empty());
    r.push(KEY_SEPARATOR);
    assert(r@ =~= escaped_part(room_id@));
    let ghost head = r@;
    let mut j: usize = 0;
    while j < session_id.len()
        invariant
            j <= session_id@.len(),
            r@ == head + session_id@.subrange(0, j as int),
        decreases session_id@.len() - j,
    {
        r.push(session_id[j]);
        j += 1;
        assert(r@ =~= head + session_id@.subrange(0, j as int));
    }
    assert(session_id@.subrange(0, session_id@.len() as int) =~= session_id@);
    r
}

/// The order of keys: bytes compared one by one, a proper prefix first.
pub open spec fn key_lt(a: Seq<u8>, b: Seq<u8>) -> bool
    decreases a.len(),
{
    if b.len() == 0 {
        false
    } else if a.len() == 0 {
        true
    } else if a[0] != b[0] {
        a[0] < b[0]
    } else {
        key_lt(a.drop_first(), b.drop_first())
    }
}

/// No key is below itself.
pub proof fn lemma_key_lt_irreflexive(a: Seq<u8>)
    ensures
        !key_lt(a, a),
    decreases a.len(),
{
    if a.len() > 0 {
        lemma_key_lt_irreflexive(a.drop_first());
    }
}

/// Of two different keys, one is below the other.
pub proof fn lemma_key_lt_total(a: Seq<u8>, b: Seq<u8>)
    ensures
        a != b ==> key_lt(a, b) || key_lt(b, a),
        !(key_lt(a, b) && key_lt(b, a)),
    decreases a.len(),
{
    if a.len() > 0 && b.len() > 0 {
        lemma_key_lt_total(a.drop_first(), b.drop_first());
        if a[0] == b[0] && a.drop_first() == b.drop_first() {
            assert(a =~= seq![a[0]] + a.drop_first());
            assert(b =~= seq![b[0]] + b.drop_first());
        }
    } else if a.len() == 0 && b.len() == 0 {
        assert(a =~= b);
    }
}

/// The order of keys is transitive.
pub proof fn lemma_key_lt_transitive(a: Seq<u8>, b: Seq<u8>, c: Seq<u8>)
    requires
        key_lt(a, b),
        key_lt(b, c),
    ensures
        key_lt(a, c),
    decreases a.len(),
{
    if a.len() > 0 && a[0] == b[0] && b[0] == c[0] {
        lemma_key_lt_transitive(a.drop_first(), b.drop_first(), c.drop_first());
    }
}

/// Whether `a` is below `b` in the order of keys.
pub fn key_less(a: &Vec<u8>, b: &Vec<u8>) -> (r: bool)
    ensures
        r == key_lt(a@, b@),
{
    let mut i: usize = 0;
    assert(a@.skip(0) =~= a@);
    assert(b@.skip(0) =~= b@);
    while i < a.len() && i < b.len()
        invariant
            i <= a@.len(),
            i <= b@.len(),
            key_lt(a@, b@) == key_lt(a@.skip(i as int), b@.skip(i as int)),
        decreases a@.len() - i,
    {
        if a[i] != b[i] {
            return a[i] < b[i];
        }
        assert(a@.skip(i as int).drop_first() =~= a@.skip(i as int + 1));
        assert(b@.skip(i as int).drop_first() =~= b@.skip(i as int + 1));
        i += 1;
    }
    i < b.len()
}

/// Whether two physical keys are the same.
pub fn keys_equal(a: &Vec<u8>, b: &Vec<u8>) -> (r: bool)
    ensures
        r == (a@ == b@),
{
    if a.len() != b.len() {
        return false;
    }
    let mut i: usize = 0;
    while i < a.len()
        invariant
            a@.len() == b@.len(),
            i <= a@.len(),
            forall|j: int| 0 <= j < i ==> a@[j] == b@[j],
        decreases a@.len() - i,
    {
        if a[i] != b[i] {
            return false;
        }
        i += 1;
    }
    assert(a@ =~= b@);
    true
}

} // verus!
