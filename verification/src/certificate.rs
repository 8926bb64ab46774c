//! The plan for the server certificate of encrypted listeners: whether one
//! is generated, where the certificate and keys are kept, which names it
//! covers and how long it is valid. Generating keys, signing and writing
//! the files is left to the caller.
use vstd::prelude::*;
use vstd::string::{StringExecFns, StrSliceExecFns};
use crate::message::{Name, label_seqs};
use crate::net::IpAddress;
use crate::ddr::{is_unspecified, ip_data, ip_rdata, unspecified};
use crate::doh::{name_text, rdata_text, push_name_text, push_rdata_text};

verus! {

// ---------------------------------------------------------------------------
// Byte strings in order

/// Byte-wise lexicographic order, the order of Rust strings.
pub open spec fn lex_lt(a: Seq<u8>, b: Seq<u8>) -> bool
    decreases a.len(),
{
    if b.len() == 0 {
        false
    } else if a.len() == 0 {
        true
    } else if a[0] != b[0] {
        a[0] < b[0]
    } else {
        lex_lt(a.drop_first(), b.drop_first())
    }
}

proof fn lemma_lex_trans(a: Seq<u8>, b: Seq<u8>, c: Seq<u8>)
    requires
        lex_lt(a, b),
        lex_lt(b, c),
    ensures
        lex_lt(a, c),
    decreases a.len(),
{
    if a.len() > 0 && b.len() > 0 && c.len() > 0 && a[0] == b[0] && b[0] == c[0] {
        lemma_lex_trans(a.drop_first(), b.drop_first(), c.drop_first());
    }
}

proof fn lemma_lex_total(a: Seq<u8>, b: Seq<u8>)
    ensures
        a == b || lex_lt(a, b) || lex_lt(b, a),
        !(lex_lt(a, b) && lex_lt(b, a)),
        !lex_lt(a, a),
    decreases a.len(),
{
    if a.len() > 0 {
        lemma_lex_total(a.drop_first(), a.drop_first());
    }
    if a.len() > 0 && b.len() > 0 && a[0] == b[0] {
        lemma_lex_total(a.drop_first(), b.drop_first());
        if a.drop_first() == b.drop_first() {
            assert(a =~= b) by {
                assert forall|i: int| 0 <= i < a.len() implies a[i] == b[i] by {
                    if i > 0 {
                        assert(a[i] == a.drop_first()[i - 1]);
                        assert(b[i] == b.drop_first()[i - 1]);
                    }
                }
            }
        }
    }
    if a.len() == 0 && b.len() == 0 {
        assert(a =~= b);
    }
}

/// Whether `a` comes before `b` (see [`lex_lt`]).
pub fn bytes_lt(a: &Vec<u8>, b: &Vec<u8>) -> (r: bool)
    ensures
        r == lex_lt(a@, b@),
{
    let mut i: usize = 0;
    assert(a@.skip(0) =~= a@ && b@.skip(0) =~= b@);
    while i < a.len() && i < b.len() && a[i] == b[i]
        invariant
            i <= a@.len() && i <= b@.len(),
            lex_lt(a@, b@) == lex_lt(a@.skip(i as int), b@.skip(i as int)),
        decreases a.len() - i,
    {
        assert(a@.skip(i as int).drop_first() =~= a@.skip(i + 1));
        assert(b@.skip(i as int).drop_first() =~= b@.skip(i + 1));
        i = i + 1;
    }
    if i == b.len() {
        false
    } else if i == a.len() {
        true
    } else {
        assert(a@.skip(i as int)[0] == a@[i as int]);
        assert(b@.skip(i as int)[0] == b@[i as int]);
        a[i] < b[i]
    }
}

/// Strictly increasing: in order, without repeats.
pub open spec fn strictly_sorted(v: Seq<Seq<u8>>) -> bool {
    forall|i: int, j: int| 0 <= i < j < v.len() ==> lex_lt(#[trigger] v[i], #[trigger] v[j])
}

fn same_bytes(a: &Vec<u8>, b: &Vec<u8>) -> (r: bool)
    ensures
        r == (a@ == b@),
{
    if a.len() != b.len() {
        return false;
    }
    let r = crate::octets::bytes_equal_at(a.as_slice(), 0, b.as_slice());
    assert(a@.subrange(0, b@.len() as int) =~= a@);
    r
}

/// Puts `x` in its place among strictly sorted byte strings, unless it is
/// there already.
fn insert_sorted(out: &mut Vec<Vec<u8>>, x: Vec<u8>)
    requires
        strictly_sorted(label_seqs(old(out)@)),
    ensures
        strictly_sorted(label_seqs(final(out)@)),
        label_seqs(final(out)@).to_set() == label_seqs(old(out)@).to_set().insert(x@),
{
    let ghost old_v = label_seqs(out@);
    let mut k: usize = 0;
    while k < out.len() && bytes_lt(&out[k], &x)
        invariant
            k <= out@.len(),
            old_v == label_seqs(out@),
            forall|j: int| 0 <= j < k ==> lex_lt(#[trigger] old_v[j], x@),
        decreases out.len() - k,
    {
        assert(old_v[k as int] == out@[k as int]@);
        k = k + 1;
    }
    if k < out.len() && same_bytes(&out[k], &x) {
        assert(old_v[k as int] == x@);
        assert(old_v.to_set().insert(x@) =~= old_v.to_set());
        return;
    }
    let ghost xv = x@;
    if k < out.len() {
        assert(old_v[k as int] == out@[k as int]@);
        proof {
            lemma_lex_total(old_v[k as int], xv);
        }
    }
    out.insert(k, x);
    let ghost new_v = label_seqs(out@);
    assert(new_v =~= old_v.insert(k as int, xv));
    assert forall|i: int, j: int| 0 <= i < j < new_v.len() implies lex_lt(#[trigger] new_v[i], #[trigger] new_v[j]) by {
        if j < k {
        } else if j == k {
        } else if i < k {
            if j - 1 >= k {
                lemma_lex_trans(old_v[i], xv, old_v[k as int]);
                if j - 1 > k {
                    lemma_lex_trans(old_v[i], old_v[k as int], old_v[j - 1]);
                }
            }
        } else if i == k {
            if j - 1 > k {
                lemma_lex_trans(xv, old_v[k as int], old_v[j - 1]);
            }
        } else {
        }
    }
    assert forall|e: Seq<u8>| new_v.to_set().contains(e) <==> old_v.to_set().insert(xv).contains(e) by {
        if new_v.to_set().contains(e) {
            let i = choose|i: int| 0 <= i < new_v.len() && new_v[i] == e;
            if i < k {
                assert(old_v[i] == e);
            } else if i > k {
                assert(old_v[i - 1] == e);
            }
        }
        if old_v.to_set().contains(e) {
            let i = choose|i: int| 0 <= i < old_v.len() && old_v[i] == e;
            if i < k {
                assert(new_v[i] == e);
            } else {
                assert(new_v[i + 1] == e);
            }
        }
        if e == xv {
            assert(new_v[k as int] == e);
        }
    }
    assert(new_v.to_set() =~= old_v.to_set().insert(xv));
}

// ---------------------------------------------------------------------------
// The names a generated certificate covers

/// `localhost`, `127.0.0.1` and `::1`.
pub open spec fn loopback_names() -> Seq<Seq<u8>> {
    seq![
        seq![108u8, 111, 99, 97, 108, 104, 111, 115, 116],
        seq![49u8, 50, 55, 46, 48, 46, 48, 46, 49],
        seq![58u8, 58, 49],
    ]
}

/// Text without its trailing dots.
pub open spec fn trim_dots(s: Seq<u8>) -> Seq<u8>
    decreases s.len(),
{
    if s.len() > 0 && s.last() == 46u8 {
        trim_dots(s.drop_last())
    } else {
        s
    }
}

/// The server name as text without the trailing dot.
pub open spec fn server_text(n: Seq<Seq<u8>>) -> Seq<u8> {
    trim_dots(name_text(n))
}

/// A configured name with a leading `DNS:` or `IP:` taken off.
pub open spec fn strip_san(s: Seq<u8>) -> Seq<u8> {
    if s.len() >= 4 && s.take(4) == seq![68u8, 78, 83, 58] {
        s.skip(4)
    } else if s.len() >= 3 && s.take(3) == seq![73u8, 80, 58] {
        s.skip(3)
    } else {
        s
    }
}

pub open spec fn san_names(san: Seq<String>) -> Seq<Seq<u8>> {
    san.map_values(|s: String| strip_san(vstd::utf8::encode_utf8(s@)))
}

/// The text of an address as the standard library writes it.
pub open spec fn ip_text(ip: IpAddress) -> Seq<u8> {
    rdata_text(ip_data(ip))
}

/// The texts of the listener addresses that are not unspecified.
pub open spec fn bind_names(binds: Seq<IpAddress>) -> Seq<Seq<u8>>
    decreases binds.len(),
{
    if binds.len() == 0 {
        Seq::empty()
    } else if is_unspecified(binds.last()) {
        bind_names(binds.drop_last())
    } else {
        bind_names(binds.drop_last()).push(ip_text(binds.last()))
    }
}

pub open spec fn local_names(local: Seq<IpAddress>) -> Seq<Seq<u8>> {
    local.map_values(|ip: IpAddress| ip_text(ip))
}

/// Every name the certificate is for: the loopback names, the server
/// name, the configured names, the listener addresses that are not
/// unspecified and the local interface addresses.
pub open spec fn candidate_names(server: Seq<Seq<u8>>, san: Seq<String>, binds: Seq<IpAddress>,
    local: Seq<IpAddress>) -> Seq<Seq<u8>> {
    loopback_names() + seq![server_text(server)] + san_names(san) + bind_names(binds) + local_names(local)
}

/// The bytes of `s` from `k` on.
fn bytes_from(s: &[u8], k: usize) -> (r: Vec<u8>)
    requires
        k <= s@.len(),
    ensures
        r@ == s@.skip(k as int),
{
    let mut r: Vec<u8> = Vec::new();
    let mut i: usize = k;
    while i < s.len()
        invariant
            k <= i <= s@.len(),
            r@ == s@.subrange(k as int, i as int),
        decreases s.len() - i,
    {
        r.push(s[i]);
        assert(s@.subrange(k as int, i + 1) =~= s@.subrange(k as int, i as int).push(s@[i as int]));
        i = i + 1;
    }
    assert(s@.subrange(k as int, s@.len() as int) =~= s@.skip(k as int));
    r
}

fn stripped(s: &String) -> (r: Vec<u8>)
    ensures
        r@ == strip_san(vstd::utf8::encode_utf8(s@)),
{
    let b = s.as_str().as_bytes();
    let dns: [u8; 4] = [68u8, 78, 83, 58];
    let ip: [u8; 3] = [73u8, 80, 58];
    if b.len() >= 4 && crate::octets::bytes_equal_at(b, 0, &dns) {
        assert(dns@ =~= seq![68u8, 78, 83, 58]);
        assert(b@.subrange(0, 4) =~= b@.take(4));
        return bytes_from(b, 4);
    }
    assert(dns@ =~= seq![68u8, 78, 83, 58]);
    assert(b@.len() >= 4 ==> b@.subrange(0, 4) =~= b@.take(4));
    if b.len() >= 3 && crate::octets::bytes_equal_at(b, 0, &ip) {
        assert(ip@ =~= seq![73u8, 80, 58]);
        assert(b@.subrange(0, 3) =~= b@.take(3));
        return bytes_from(b, 3);
    }
    assert(ip@ =~= seq![73u8, 80, 58]);
    assert(b@.len() >= 3 ==> b@.subrange(0, 3) =~= b@.take(3));
    bytes_from(b, 0)
}

fn address_text(ip: IpAddress) -> (r: Vec<u8>)
    ensures
        r@ == ip_text(ip),
{
    let mut v: Vec<u8> = Vec::new();
    push_rdata_text(&mut v, &ip_rdata(ip));
    assert(v@ =~= ip_text(ip));
    v
}

fn server_name_text(n: &Name) -> (r: Vec<u8>)
    ensures
        r@ == server_text(n@),
{
    let mut v: Vec<u8> = Vec::new();
    push_name_text(&mut v, n);
    assert(v@ =~= name_text(n@));
    while v.len() > 0 && v[v.len() - 1] == 46u8
        invariant
            trim_dots(v@) == server_text(n@),
        decreases v.len(),
    {
        let ghost before = v@;
        v.pop();
        assert(v@ =~= before.drop_last());
    }
    v
}

fn candidates(server_name: &Name, san: &Vec<String>, binds: &Vec<IpAddress>, local: &Vec<IpAddress>) -> (r: Vec<
    Vec<u8>,
>)
    ensures
        label_seqs(r@) == candidate_names(server_name@, san@, binds@, local@),
{
    let mut r: Vec<Vec<u8>> = Vec::new();
    r.push(vec![108u8, 111, 99, 97, 108, 104, 111, 115, 116]);
    r.push(vec![49u8, 50, 55, 46, 48, 46, 48, 46, 49]);
    r.push(vec![58u8, 58, 49]);
    r.push(server_name_text(server_name));
    assert(label_seqs(r@) =~= loopback_names() + seq![server_text(server_name@)]);
    let ghost base = label_seqs(r@);
    let mut i: usize = 0;
    while i < san.len()
        invariant
            i <= san@.len(),
            label_seqs(r@) == base + san_names(san@).take(i as int),
        decreases san.len() - i,
    {
        let ghost before = label_seqs(r@);
        r.push(stripped(&san[i]));
        assert(label_seqs(r@) =~= before.push(strip_san(vstd::utf8::encode_utf8(san@[i as int]@))));
        assert(san_names(san@).take(i + 1) =~= san_names(san@).take(i as int).push(san_names(san@)[i as int]));
        i = i + 1;
    }
    assert(san_names(san@).take(san@.len() as int) =~= san_names(san@));
    let ghost base2 = label_seqs(r@);
    let mut i: usize = 0;
    assert(binds@.take(0) =~= Seq::<IpAddress>::empty());
    assert(base2 + bind_names(binds@.take(0)) =~= base2);
    while i < binds.len()
        invariant
            i <= binds@.len(),
            label_seqs(r@) == base2 + bind_names(binds@.take(i as int)),
        decreases binds.len() - i,
    {
        let ghost before = label_seqs(r@);
        assert(binds@.take(i + 1).drop_last() =~= binds@.take(i as int));
        assert(binds@.take(i + 1).last() == binds@[i as int]);
        if !unspecified(&binds[i]) {
            r.push(address_text(binds[i]));
            assert(label_seqs(r@) =~= before.push(ip_text(binds@[i as int])));
            assert(base2 + bind_names(binds@.take(i + 1)) =~= (base2 + bind_names(binds@.take(i as int))).push(
                ip_text(binds@[i as int]),
            ));
        }
        i = i + 1;
    }
    assert(binds@.take(binds@.len() as int) =~= binds@);
    let ghost base3 = label_seqs(r@);
    let mut i: usize = 0;
    while i < local.len()
        invariant
            i <= local@.len(),
            label_seqs(r@) == base3 + local_names(local@).take(i as int),
        decreases local.len() - i,
    {
        let ghost before = label_seqs(r@);
        r.push(address_text(local[i]));
        assert(label_seqs(r@) =~= before.push(ip_text(local@[i as int])));
        assert(local_names(local@).take(i + 1) =~= local_names(local@).take(i as int).push(local_names(local@)[i as int]));
        i = i + 1;
    }
    assert(local_names(local@).take(local@.len() as int) =~= local_names(local@));
    r
}

/// The names a generated certificate is for (see [`candidate_names`]),
/// sorted, each once.
pub fn certificate_names(server_name: &Name, san: &Vec<String>, binds: &Vec<IpAddress>, local: &Vec<IpAddress>)
    -> (r: Vec<Vec<u8>>)
    ensures
        strictly_sorted(label_seqs(r@)),
        label_seqs(r@).to_set() == candidate_names(server_name@, san@, binds@, local@).to_set(),
{
    let all = candidates(server_name, san, binds, local);
    let ghost c = label_seqs(all@);
    let mut out: Vec<Vec<u8>> = Vec::new();
    let mut i: usize = 0;
    assert(label_seqs(out@) =~= Seq::<Seq<u8>>::empty());
    assert(c.take(0).to_set() =~= Set::<Seq<u8>>::empty());
    assert(label_seqs(out@).to_set() =~= Set::<Seq<u8>>::empty());
    while i < all.len()
        invariant
            i <= all@.len(),
            c == label_seqs(all@),
            strictly_sorted(label_seqs(out@)),
            label_seqs(out@).to_set() == c.take(i as int).to_set(),
        decreases all.len() - i,
    {
        let x = crate::message::copy_bytes(&all[i]);
        assert(x@ == c[i as int]);
        insert_sorted(&mut out, x);
        assert(c.take(i + 1) =~= c.take(i as int).push(c[i as int]));
        proof {
            c.take(i as int).lemma_push_to_set_commute(c[i as int]);
        }
        i = i + 1;
    }
    assert(c.take(all@.len() as int) =~= c);
    out
}

// ---------------------------------------------------------------------------
// Where the files are kept and whether they are made

/// When a certificate is generated: `auto` only when neither a certificate
/// nor a key path is configured, `yes` always, `no` never.
#[derive(Clone, Copy, Debug, PartialEq, Eq, Structural)]
pub enum CertificateGeneration {
    Auto,
    Yes,
    No,
}

/// The listener's own setting if it has one, else the global one.
pub open spec fn first_set(own: Option<Seq<char>>, global: Option<Seq<char>>) -> Option<Seq<char>> {
    match own {
        Some(p) => Some(p),
        None => global,
    }
}

pub open spec fn opt_text(s: Option<&str>) -> Option<Seq<char>> {
    match s {
        Some(t) => Some(t@),
        None => None,
    }
}

/// `file` in the directory `dir`, as a path is joined: a separator is put
/// between them unless `dir` is empty or already ends with one.
pub open spec fn join_path(dir: Seq<char>, file: Seq<char>) -> Seq<char> {
    if dir.len() == 0 || dir.last() == '/' {
        dir + file
    } else {
        dir + seq!['/'] + file
    }
}

/// The paths of the certificate, its key and the root key, and whether a
/// certificate is generated.
#[derive(Debug)]
pub struct CertificatePlan {
    pub certificate: String,
    pub key: String,
    pub root_key: String,
    pub generate: bool,
}

pub open spec fn spec_generate(cert: Option<Seq<char>>, key: Option<Seq<char>>, mode: CertificateGeneration)
    -> bool {
    match mode {
        CertificateGeneration::Auto => cert is None && key is None,
        CertificateGeneration::Yes => true,
        CertificateGeneration::No => false,
    }
}

fn join(dir: &str, file: &str) -> (r: String)
    ensures
        r@ == join_path(dir@, file@),
{
    let mut s = String::from_str(dir);
    let n = dir.unicode_len();
    if n > 0 && dir.get_char(n - 1) != '/' {
        s.append("/");
        proof {
            reveal_strlit("/");
        }
    }
    s.append(file);
    s
}

fn path_or(own: Option<&str>, global: Option<&str>, dir: &str, file: &str) -> (r: String)
    ensures
        r@ == match first_set(opt_text(own), opt_text(global)) {
            Some(p) => p,
            None => join_path(dir@, file@),
        },
{
    match own {
        Some(p) => String::from_str(p),
        None => match global {
            Some(p) => String::from_str(p),
            None => join(dir, file),
        },
    }
}

/// The certificate plan of a listener: `cert` and `key` are the listener's
/// own paths, `bind_cert` and `bind_key` the global ones, `root_key` the
/// configured root-key path, and `directory` the configuration directory.
/// Unset paths are `smartdns-cert.pem`, `smartdns-key.pem` and
/// `smartdns-root-key.pem` in that directory.
pub fn certificate_plan(cert: Option<&str>, key: Option<&str>, bind_cert: Option<&str>, bind_key: Option<&str>,
    root_key: Option<&str>, mode: CertificateGeneration, directory: &str) -> (r: CertificatePlan)
    ensures
        r.generate == spec_generate(
            first_set(opt_text(cert), opt_text(bind_cert)),
            first_set(opt_text(key), opt_text(bind_key)),
            mode,
        ),
        r.certificate@ == match first_set(opt_text(cert), opt_text(bind_cert)) {
            Some(p) => p,
            None => join_path(directory@, "smartdns-cert.pem"@),
        },
        r.key@ == match first_set(opt_text(key), opt_text(bind_key)) {
            Some(p) => p,
            None => join_path(directory@, "smartdns-key.pem"@),
        },
        r.root_key@ == match opt_text(root_key) {
            Some(p) => p,
            None => join_path(directory@, "smartdns-root-key.pem"@),
        },
{
    let generate = match mode {
        CertificateGeneration::Auto => cert.is_none() && bind_cert.is_none() && key.is_none() && bind_key.is_none(),
        CertificateGeneration::Yes => true,
        CertificateGeneration::No => false,
    };
    CertificatePlan {
        certificate: path_or(cert, bind_cert, directory, "smartdns-cert.pem"),
        key: path_or(key, bind_key, directory, "smartdns-key.pem"),
        root_key: path_or(root_key, None, directory, "smartdns-root-key.pem"),
        generate,
    }
}

/// Why a certificate cannot be generated.
#[derive(Clone, Copy, Debug, PartialEq, Eq, Structural)]
pub enum CertificateError {
    /// `bind-cert-validity-days` is over 9999.
    ValidityTooLong,
}

/// How many days a generated certificate is valid: the configured number
/// when it is set and not 0, else 390; more than 9999 is refused.
pub fn validity_days(days: Option<u32>) -> (r: Result<u32, CertificateError>)
    ensures
        r == match days {
            Some(d) => if d == 0 {
                Ok(390u32)
            } else if d <= 9999 {
                Ok(d)
            } else {
                Err(CertificateError::ValidityTooLong)
            },
            None => Ok(390u32),
        },
{
    let d = match days {
        Some(d) => if d > 0 { d } else { 390 },
        None => 390,
    };
    if d <= 9999 {
        Ok(d)
    } else {
        Err(CertificateError::ValidityTooLong)
    }
}

} // verus!
