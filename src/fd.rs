use vstd::prelude::*;
use vstd::string::StringSliceAdditionalSpecFns;
use vstd::utf8::valid_utf8;

verus! {

broadcast use vstd::std_specs::vec::group_vec_axioms;

/// The storage key of a field definition of a table. The single bytes are the
/// key's fixed markers, which `new` sets.
#[derive(Clone, Debug, Eq, PartialEq, PartialOrd)]
pub struct Fd<'a> {
    pub __: u8,
    pub _a: u8,
    pub ns: &'a str,
    pub _b: u8,
    pub db: &'a str,
    pub _c: u8,
    pub tb: &'a str,
    pub _d: u8,
    pub _e: u8,
    pub _f: u8,
    pub fd: &'a str,
}

/// Why a key could not be decoded.
#[derive(Debug, PartialEq, Eq)]
pub enum KeyError {
    /// The bytes are not laid out as a key.
    Malformed,
}

/// Whether no byte is zero.
pub open spec fn zero_free(s: Seq<u8>) -> bool {
    forall|i: int| 0 <= i < s.len() ==> s[i] != 0
}

/// A name in a key: its bytes, then a zero.
pub open spec fn name(s: Seq<u8>) -> Seq<u8> {
    s.push(0)
}

/// The key of a table: `/*` namespace `*` database `*` table.
pub open spec fn table_key(ns: Seq<u8>, db: Seq<u8>, tb: Seq<u8>) -> Seq<u8> {
    seq![0x2fu8, 0x2au8] + name(ns) + seq![0x2au8] + name(db) + seq![0x2au8] + name(tb)
}

/// The bytes of a field definition key with the given marker bytes and names.
pub open spec fn key_bytes(m: Seq<u8>, ns: Seq<u8>, db: Seq<u8>, tb: Seq<u8>, fd: Seq<u8>) -> Seq<u8> {
    seq![m[0], m[1]] + name(ns) + seq![m[2]] + name(db) + seq![m[3]] + name(tb) + seq![m[4], m[5], m[6]]
        + name(fd)
}

/// The marker bytes of a field definition key: `/`, `*`, `*`, `*`, `!`, `f`, `d`.
pub open spec fn fd_markers() -> Seq<u8> {
    seq![0x2fu8, 0x2au8, 0x2au8, 0x2au8, 0x21u8, 0x66u8, 0x64u8]
}

impl<'a> Fd<'a> {
    pub open spec fn markers(&self) -> Seq<u8> {
        seq![self.__, self._a, self._b, self._c, self._d, self._e, self._f]
    }

    /// The bytes that encode this key.
    pub open spec fn bytes(&self) -> Seq<u8> {
        key_bytes(
            self.markers(),
            self.ns.spec_bytes(),
            self.db.spec_bytes(),
            self.tb.spec_bytes(),
            self.fd.spec_bytes(),
        )
    }

    /// The key of field `fd` of table `tb` in database `db` of namespace `ns`.
    pub fn new(ns: &'a str, db: &'a str, tb: &'a str, fd: &'a str) -> (r: Self)
        ensures
            r.markers() == fd_markers(),
            r.ns == ns,
            r.db == db,
            r.tb == tb,
            r.fd == fd,
    {
        let r = Fd {
            __: 0x2f,
            _a: 0x2a,
            ns,
            _b: 0x2a,
            db,
            _c: 0x2a,
            tb,
            _d: 0x21,
            _e: 0x66,
            _f: 0x64,
            fd,
        };
        assert(r.markers() =~= fd_markers());
        r
    }

    /// The bytes of the key: each name is written as its bytes and a zero.
    pub fn encode(&self) -> (r: Result<Vec<u8>, KeyError>)
        ensures
            r is Ok,
            r->Ok_0@ == self.bytes(),
    {
        let mut out: Vec<u8> = Vec::new();
        out.push(self.__);
        out.push(self._a);
        push_name(&mut out, self.ns);
        out.push(self._b);
        push_name(&mut out, self.db);
        out.push(self._c);
        push_name(&mut out, self.tb);
        out.push(self._d);
        out.push(self._e);
        out.push(self._f);
        push_name(&mut out, self.fd);
        assert(out@ =~= self.bytes());
        Ok(out)
    }

    /// Reads a key back from its bytes. The names borrow from `b`.
    pub fn decode(b: &'a [u8]) -> (r: Result<Fd<'a>, KeyError>)
        ensures
            r is Ok ==> r->Ok_0.bytes() == b@,
            r is Ok ==> zero_free(r->Ok_0.ns.spec_bytes()) && zero_free(r->Ok_0.db.spec_bytes())
                && zero_free(r->Ok_0.tb.spec_bytes()) && zero_free(r->Ok_0.fd.spec_bytes()),
            r is Err ==> r->Err_0 == KeyError::Malformed,
            forall|m: Seq<u8>, ns: Seq<u8>, db: Seq<u8>, tb: Seq<u8>, fd: Seq<u8>|
                #[trigger] decomposes(b@, m, ns, db, tb, fd) ==> r is Ok,
    {
        let n = b.len();
        if n < 2 {
            proof {
                assert forall|m: Seq<u8>, ns: Seq<u8>, db: Seq<u8>, tb: Seq<u8>, fd: Seq<u8>|
                    #[trigger] decomposes(b@, m, ns, db, tb, fd) implies false by {
                    lemma_key_parts(b@, m, ns, db, tb, fd);
                }
            }
            return Err(KeyError::Malformed);
        }
        let m0 = b[0];
        let m1 = b[1];
        let (ns, after_ns) = match read_name(b, 2) {
            Some(x) => x,
            None => {
                proof {
                    assert forall|m: Seq<u8>, ns: Seq<u8>, db: Seq<u8>, tb: Seq<u8>, fd: Seq<u8>|
                        #[trigger] decomposes(b@, m, ns, db, tb, fd) implies false by {
                        lemma_key_parts(b@, m, ns, db, tb, fd);
                    }
                }
                return Err(KeyError::Malformed);
            },
        };
        if after_ns >= n {
            proof {
                assert forall|m: Seq<u8>, ns: Seq<u8>, db: Seq<u8>, tb: Seq<u8>, fd: Seq<u8>|
                    #[trigger] decomposes(b@, m, ns, db, tb, fd) implies false by {
                    lemma_key_parts(b@, m, ns, db, tb, fd);
                }
            }
            return Err(KeyError::Malformed);
        }
        let m2 = b[after_ns];
        let (db, after_db) = match read_name(b, after_ns + 1) {
            Some(x) => x,
            None => {
                proof {
                    assert forall|m: Seq<u8>, ns: Seq<u8>, db: Seq<u8>, tb: Seq<u8>, fd: Seq<u8>|
                        #[trigger] decomposes(b@, m, ns, db, tb, fd) implies false by {
                        lemma_key_parts(b@, m, ns, db, tb, fd);
                    }
                }
                return Err(KeyError::Malformed);
            },
        };
        if after_db >= n {
            proof {
                assert forall|m: Seq<u8>, ns: Seq<u8>, db: Seq<u8>, tb: Seq<u8>, fd: Seq<u8>|
                    #[trigger] decomposes(b@, m, ns, db, tb, fd) implies false by {
                    lemma_key_parts(b@, m, ns, db, tb, fd);
                }
            }
            return Err(KeyError::Malformed);
        }
        let m3 = b[after_db];
        let (tb, after_tb) = match read_name(b, after_db + 1) {
            Some(x) => x,
            None => {
                proof {
                    assert forall|m: Seq<u8>, ns: Seq<u8>, db: Seq<u8>, tb: Seq<u8>, fd: Seq<u8>|
                        #[trigger] decomposes(b@, m, ns, db, tb, fd) implies false by {
                        lemma_key_parts(b@, m, ns, db, tb, fd);
                    }
                }
                return Err(KeyError::Malformed);
            },
        };
        if after_tb >= n || n - after_tb < 3 {
            proof {
                assert forall|m: Seq<u8>, ns: Seq<u8>, db: Seq<u8>, tb: Seq<u8>, fd: Seq<u8>|
                    #[trigger] decomposes(b@, m, ns, db, tb, fd) implies false by {
                    lemma_key_parts(b@, m, ns, db, tb, fd);
                }
            }
            return Err(KeyError::Malformed);
        }
        let m4 = b[after_tb];
        let m5 = b[after_tb + 1];
        let m6 = b[after_tb + 2];
        let (fd, after_fd) = match read_name(b, after_tb + 3) {
            Some(x) => x,
            None => {
                proof {
                    assert forall|m: Seq<u8>, ns: Seq<u8>, db: Seq<u8>, tb: Seq<u8>, fd: Seq<u8>|
                        #[trigger] decomposes(b@, m, ns, db, tb, fd) implies false by {
                        lemma_key_parts(b@, m, ns, db, tb, fd);
                    }
                }
                return Err(KeyError::Malformed);
            },
        };
        if after_fd != n {
            proof {
                assert forall|m: Seq<u8>, ns: Seq<u8>, db: Seq<u8>, tb: Seq<u8>, fd: Seq<u8>|
                    #[trigger] decomposes(b@, m, ns, db, tb, fd) implies false by {
                    lemma_key_parts(b@, m, ns, db, tb, fd);
                }
            }
            return Err(KeyError::Malformed);
        }
        let r = Fd { __: m0, _a: m1, ns, _b: m2, db, _c: m3, tb, _d: m4, _e: m5, _f: m6, fd };
        proof {
            lemma_zero_at_bounds(b@, 2);
            lemma_zero_at_bounds(b@, after_ns + 1);
            lemma_zero_at_bounds(b@, after_db + 1);
            lemma_zero_at_bounds(b@, after_tb + 3);
            let s1 = b@.subrange(2, after_ns - 1);
            let s2 = b@.subrange(after_ns + 1, after_db - 1);
            let s3 = b@.subrange(after_db + 1, after_tb - 1);
            let s4 = b@.subrange(after_tb + 3, after_fd - 1);
            assert(b@ =~= seq![m0, m1] + s1.push(0) + seq![m2] + s2.push(0) + seq![m3] + s3.push(0) + seq![
                m4,
                m5,
                m6,
            ] + s4.push(0));
            assert(r.markers() =~= seq![m0, m1, m2, m3, m4, m5, m6]);
        }
        assert(r.bytes() =~= b@);
        Ok(r)
    }
}

/// Whether `b` is the key with marker bytes `m` and names `ns`, `db`, `tb`, `fd`.
pub open spec fn decomposes(b: Seq<u8>, m: Seq<u8>, ns: Seq<u8>, db: Seq<u8>, tb: Seq<u8>, fd: Seq<u8>) -> bool {
    &&& m.len() == 7
    &&& zero_free(ns) && zero_free(db) && zero_free(tb) && zero_free(fd)
    &&& valid_utf8(ns) && valid_utf8(db) && valid_utf8(tb) && valid_utf8(fd)
    &&& key_bytes(m, ns, db, tb, fd) == b
}

/// A key's bytes fix its names: two keys whose names hold no zero byte and that
/// encode to the same bytes have the same names, so that decoding what `encode`
/// wrote gives the names back.
pub proof fn lemma_key_round_trip(f: Fd, g: Fd)
    requires
        f.bytes() == g.bytes(),
        zero_free(f.ns.spec_bytes()) && zero_free(f.db.spec_bytes()),
        zero_free(f.tb.spec_bytes()) && zero_free(f.fd.spec_bytes()),
        zero_free(g.ns.spec_bytes()) && zero_free(g.db.spec_bytes()),
        zero_free(g.tb.spec_bytes()) && zero_free(g.fd.spec_bytes()),
    ensures
        f.ns.spec_bytes() == g.ns.spec_bytes(),
        f.db.spec_bytes() == g.db.spec_bytes(),
        f.tb.spec_bytes() == g.tb.spec_bytes(),
        f.fd.spec_bytes() == g.fd.spec_bytes(),
{
    vstd::utf8::encode_utf8_valid_utf8(f.ns@);
    vstd::utf8::encode_utf8_valid_utf8(f.db@);
    vstd::utf8::encode_utf8_valid_utf8(f.tb@);
    vstd::utf8::encode_utf8_valid_utf8(f.fd@);
    vstd::utf8::encode_utf8_valid_utf8(g.ns@);
    vstd::utf8::encode_utf8_valid_utf8(g.db@);
    vstd::utf8::encode_utf8_valid_utf8(g.tb@);
    vstd::utf8::encode_utf8_valid_utf8(g.fd@);
    let b = f.bytes();
    lemma_key_parts(b, f.markers(), f.ns.spec_bytes(), f.db.spec_bytes(), f.tb.spec_bytes(), f.fd.spec_bytes());
    lemma_key_parts(b, g.markers(), g.ns.spec_bytes(), g.db.spec_bytes(), g.tb.spec_bytes(), g.fd.spec_bytes());
}

/// Position of the first zero byte of `b` from `pos` on, or the length of `b`.
pub open spec fn zero_at(b: Seq<u8>, pos: int) -> int
    decreases b.len() - pos,
{
    if pos >= b.len() {
        b.len() as int
    } else if b[pos] == 0 {
        pos
    } else {
        zero_at(b, pos + 1)
    }
}

proof fn lemma_zero_at_bounds(b: Seq<u8>, pos: int)
    requires
        0 <= pos <= b.len(),
    ensures
        pos <= zero_at(b, pos) <= b.len(),
        zero_at(b, pos) < b.len() ==> b[zero_at(b, pos)] == 0,
    decreases b.len() - pos,
{
    if pos < b.len() && b[pos] != 0 {
        lemma_zero_at_bounds(b, pos + 1);
    }
}

proof fn lemma_zero_at(b: Seq<u8>, pos: int, z: int)
    requires
        0 <= pos <= z <= b.len(),
        forall|j: int| pos <= j < z ==> b[j] != 0,
        z == b.len() || b[z] == 0,
    ensures
        zero_at(b, pos) == z,
    decreases z - pos,
{
    if pos < z {
        lemma_zero_at(b, pos + 1, z);
    }
}

/// Where the parts of a key stand in its bytes.
proof fn lemma_key_parts(b: Seq<u8>, m: Seq<u8>, ns: Seq<u8>, db: Seq<u8>, tb: Seq<u8>, fd: Seq<u8>)
    requires
        decomposes(b, m, ns, db, tb, fd),
    ensures
        ({
            let z1: int = 2 + ns.len() as int;
            let z2: int = z1 + 2 + db.len();
            let z3: int = z2 + 2 + tb.len();
            let z4: int = z3 + 4 + fd.len();
            &&& b.len() == z4 + 1
            &&& zero_at(b, 2) == z1 && b.subrange(2, z1) == ns
            &&& zero_at(b, z1 + 2) == z2 && b.subrange(z1 + 2, z2) == db
            &&& zero_at(b, z2 + 2) == z3 && b.subrange(z2 + 2, z3) == tb
            &&& zero_at(b, z3 + 4) == z4 && b.subrange(z3 + 4, z4) == fd
        }),
{
    let z1: int = 2 + ns.len() as int;
    let z2: int = z1 + 2 + db.len();
    let z3: int = z2 + 2 + tb.len();
    let z4: int = z3 + 4 + fd.len();
    assert(b.subrange(2, z1) =~= ns);
    assert(b.subrange(z1 + 2, z2) =~= db);
    assert(b.subrange(z2 + 2, z3) =~= tb);
    assert(b.subrange(z3 + 4, z4) =~= fd);
    assert(b[z1 as int] == 0 && b[z2 as int] == 0 && b[z3 as int] == 0 && b[z4 as int] == 0);
    assert forall|j: int| 2 <= j < z1 implies b[j] != 0 by {
        assert(b[j] == b.subrange(2, z1 as int)[j - 2]);
    }
    assert forall|j: int| z1 + 2 <= j < z2 implies b[j] != 0 by {
        assert(b[j] == b.subrange(z1 + 2, z2 as int)[j - z1 - 2]);
    }
    assert forall|j: int| z2 + 2 <= j < z3 implies b[j] != 0 by {
        assert(b[j] == b.subrange(z2 + 2, z3 as int)[j - z2 - 2]);
    }
    assert forall|j: int| z3 + 4 <= j < z4 implies b[j] != 0 by {
        assert(b[j] == b.subrange(z3 + 4, z4 as int)[j - z3 - 4]);
    }
    lemma_zero_at(b, 2, z1 as int);
    lemma_zero_at(b, z1 + 2, z2 as int);
    lemma_zero_at(b, z2 + 2, z3 as int);
    lemma_zero_at(b, z3 + 4, z4 as int);
}

/// Relies on std::str::from_utf8: the bytes are read as a string exactly when they
/// are valid UTF-8, and the string holds those bytes.
#[verifier::external_body]
fn utf8(b: &[u8]) -> (r: Option<&str>)
    ensures
        r is Some <==> valid_utf8(b@),
        r is Some ==> r->0.spec_bytes() == b@,
{
    std::str::from_utf8(b).ok()
}

/// Reads the name that starts at `pos`: the bytes up to the next zero, which must
/// be valid UTF-8; gives the name and the position after the zero.
fn read_name<'b>(b: &'b [u8], pos: usize) -> (r: Option<(&'b str, usize)>)
    requires
        pos <= b@.len(),
    ensures
        r is Some <==> (zero_at(b@, pos as int) < b@.len() && valid_utf8(
            b@.subrange(pos as int, zero_at(b@, pos as int)),
        )),
        match r {
            Some((s, q)) => {
                &&& s.spec_bytes() == b@.subrange(pos as int, zero_at(b@, pos as int))
                &&& zero_free(s.spec_bytes())
                &&& q == zero_at(b@, pos as int) + 1
            },
            None => true,
        },
{
    let n = b.len();
    let mut i: usize = pos;
    while i < n && b[i] != 0
        invariant
            pos <= i <= n,
            n == b@.len(),
            forall|j: int| pos <= j < i ==> b@[j] != 0,
        decreases n - i,
    {
        i = i + 1;
    }
    proof {
        lemma_zero_at(b@, pos as int, i as int);
    }
    if i == n {
        return None;
    }
    let part = vstd::slice::slice_subrange(b, pos, i);
    match utf8(part) {
        Some(s) => Some((s, i + 1)),
        None => None,
    }
}

/// Appends the bytes of `s` and a zero.
fn push_name(out: &mut Vec<u8>, s: &str)
    ensures
        final(out)@ == old(out)@ + name(s.spec_bytes()),
{
    let b = s.as_bytes();
    let ghost start = out@;
    let mut i: usize = 0;
    while i < b.len()
        invariant
            i <= b@.len(),
            b@ == s.spec_bytes(),
            out@ == start + b@.subrange(0, i as int),
        decreases b@.len() - i,
    {
        out.push(b[i]);
        assert(out@ =~= start + b@.subrange(0, i + 1));
        i = i + 1;
    }
    out.push(0);
    assert(b@.subrange(0, i as int) =~= b@);
    assert(out@ =~= start + name(s.spec_bytes()));
}

/// The key of field `fd` of table `tb` in database `db` of namespace `ns`.
pub fn new<'a>(ns: &'a str, db: &'a str, tb: &'a str, fd: &'a str) -> (r: Fd<'a>)
    ensures
        r.markers() == fd_markers(),
        r.ns == ns,
        r.db == db,
        r.tb == tb,
        r.fd == fd,
{
    Fd::new(ns, db, tb, fd)
}

/// The first key of the field definitions of a table.
pub fn prefix(ns: &str, db: &str, tb: &str) -> (r: Vec<u8>)
    ensures
        r@ == table_key(ns.spec_bytes(), db.spec_bytes(), tb.spec_bytes()) + seq![0x21u8, 0x66u8, 0x64u8, 0x00u8],
{
    let mut k = table(ns, db, tb);
    k.push(0x21);
    k.push(0x66);
    k.push(0x64);
    k.push(0x00);
    assert(k@ =~= table_key(ns.spec_bytes(), db.spec_bytes(), tb.spec_bytes()) + seq![0x21u8, 0x66u8, 0x64u8, 0x00u8]);
    k
}

/// The key just past the field definitions of a table.
pub fn suffix(ns: &str, db: &str, tb: &str) -> (r: Vec<u8>)
    ensures
        r@ == table_key(ns.spec_bytes(), db.spec_bytes(), tb.spec_bytes()) + seq![0x21u8, 0x66u8, 0x64u8, 0xffu8],
{
    let mut k = table(ns, db, tb);
    k.push(0x21);
    k.push(0x66);
    k.push(0x64);
    k.push(0xff);
    assert(k@ =~= table_key(ns.spec_bytes(), db.spec_bytes(), tb.spec_bytes()) + seq![0x21u8, 0x66u8, 0x64u8, 0xffu8]);
    k
}

/// The key of a table.
fn table(ns: &str, db: &str, tb: &str) -> (r: Vec<u8>)
    ensures
        r@ == table_key(ns.spec_bytes(), db.spec_bytes(), tb.spec_bytes()),
{
    let mut k: Vec<u8> = Vec::new();
    k.push(0x2f);
    k.push(0x2a);
    push_name(&mut k, ns);
    k.push(0x2a);
    push_name(&mut k, db);
    k.push(0x2a);
    push_name(&mut k, tb);
    assert(k@ =~= table_key(ns.spec_bytes(), db.spec_bytes(), tb.spec_bytes()));
    k
}

} // verus!
