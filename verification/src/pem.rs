//! Picking the certificate chain and the private key out of a PEM file's items.
use vstd::prelude::*;

verus! {

/// One item of a PEM file, as DER bytes.
pub enum PemItem {
    X509Certificate(Vec<u8>),
    RsaKey(Vec<u8>),
    Pkcs8Key(Vec<u8>),
}

/// Why the items do not make a certificate chain with its key.
#[derive(Debug, PartialEq, Eq, Structural, Clone, Copy)]
pub enum PemError {
    /// More than one PKCS#8 key.
    TooManyKeys,
    /// Not exactly three certificates.
    WrongCertificateCount,
    /// No PKCS#8 key.
    MissingPrivateKey,
}

/// The certificates, in order.
pub open spec fn certs_of(items: Seq<PemItem>) -> Seq<Seq<u8>>
    decreases items.len(),
{
    if items.len() == 0 {
        seq![]
    } else {
        let rest = certs_of(items.drop_last());
        match items.last() {
            PemItem::X509Certificate(c) => rest.push(c@),
            _ => rest,
        }
    }
}

/// The PKCS#8 keys, in order.
pub open spec fn keys_of(items: Seq<PemItem>) -> Seq<Seq<u8>>
    decreases items.len(),
{
    if items.len() == 0 {
        seq![]
    } else {
        let rest = keys_of(items.drop_last());
        match items.last() {
            PemItem::Pkcs8Key(k) => rest.push(k@),
            _ => rest,
        }
    }
}

/// What picking the chain and key out of `items` gives: a second PKCS#8 key
/// is refused first, then a certificate count other than three, then a
/// missing key; else the three certificates in order and the key.
pub open spec fn collected(items: Seq<PemItem>, r: Result<(Vec<Vec<u8>>, Vec<u8>), PemError>) -> bool {
    &&& keys_of(items).len() > 1 ==> r == Err::<(Vec<Vec<u8>>, Vec<u8>), PemError>(
        PemError::TooManyKeys,
    )
    &&& keys_of(items).len() <= 1 && certs_of(items).len() != 3 ==> r == Err::<
        (Vec<Vec<u8>>, Vec<u8>),
        PemError,
    >(PemError::WrongCertificateCount)
    &&& keys_of(items).len() == 0 && certs_of(items).len() == 3 ==> r == Err::<
        (Vec<Vec<u8>>, Vec<u8>),
        PemError,
    >(PemError::MissingPrivateKey)
    &&& keys_of(items).len() == 1 && certs_of(items).len() == 3 ==> (r matches Ok((certs, key))
        && certs@.map_values(|c: Vec<u8>| c@) == certs_of(items) && key@ == keys_of(items)[0])
}

/// The chain of three certificates and the one PKCS#8 key of a PEM file's
/// items; RSA (PKCS#1) keys are passed over. A second key is refused as soon
/// as it is met, before the certificates are counted.
pub fn collect_certs_and_key(items: &Vec<PemItem>) -> (r: Result<(Vec<Vec<u8>>, Vec<u8>), PemError>)
    ensures
        collected(items@, r),
{
    let mut certs: Vec<Vec<u8>> = Vec::new();
    let mut key: Option<Vec<u8>> = None;
    let mut i: usize = 0;
    while i < items.len()
        invariant
            0 <= i <= items@.len(),
            certs@.map_values(|c: Vec<u8>| c@) == certs_of(items@.take(i as int)),
            keys_of(items@.take(i as int)).len() <= 1,
            key is None <==> keys_of(items@.take(i as int)).len() == 0,
            key matches Some(k) ==> k@ == keys_of(items@.take(i as int))[0],
        decreases items@.len() - i,
    {
        let ghost t = items@.take(i as int);
        let ghost t1 = items@.take(i + 1);
        assert(t1.drop_last() =~= t);
        match &items[i] {
            PemItem::X509Certificate(x) => {
                let c = x.clone();
                assert(c@ =~= x@);
                certs.push(c);
                assert(certs@.map_values(|c: Vec<u8>| c@) =~= certs_of(t1));
            },
            PemItem::RsaKey(_) => {},
            PemItem::Pkcs8Key(x) => {
                if key.is_some() {
                    proof {
                        assert(keys_of(t1).len() == 2);
                        lemma_keys_prefix(items@, i + 1, items@.len() as int);
                        assert(items@.take(items@.len() as int) =~= items@);
                    }
                    return Err(PemError::TooManyKeys);
                }
                let k = x.clone();
                assert(k@ =~= x@);
                key = Some(k);
            },
        }
        i += 1;
    }
    assert(items@.take(items@.len() as int) =~= items@);
    if certs.len() != 3 {
        return Err(PemError::WrongCertificateCount);
    }
    match key {
        Some(k) => Ok((certs, k)),
        None => Err(PemError::MissingPrivateKey),
    }
}

/// A prefix has no more keys than the whole.
proof fn lemma_keys_prefix(items: Seq<PemItem>, m: int, n: int)
    requires
        0 <= m <= n <= items.len(),
    ensures
        keys_of(items.take(m)).len() <= keys_of(items.take(n)).len(),
    decreases n - m,
{
    if m < n {
        lemma_keys_prefix(items, m, n - 1);
        assert(items.take(n).drop_last() =~= items.take(n - 1));
    }
}

/// What `rustls_pemfile::read_one` reads from the bytes of a PEM file from
/// `at` on: an error, the end of the items, or the next item and how many
/// bytes are left after it.
pub uninterp spec fn pem_read_one(pem: Seq<u8>, at: int) -> Result<Option<(PemItem, int)>, ()>;

/// `rustls_pemfile::read_one` of the `rustls-pemfile` crate, reading the
/// bytes of a PEM file from `at` on: `Err(())` when the crate reports an
/// error, `Ok(None)` at the end of the items, else the next item and the
/// number of bytes left after it. What it reads depends on the bytes alone;
/// an item takes at least the line that starts it.
#[verifier::external_body]
fn read_pem_item(pem: &[u8], at: usize) -> (r: Result<Option<(PemItem, usize)>, ()>)
    requires
        at <= pem@.len(),
    ensures
        match r {
            Ok(Some((item, left))) => pem_read_one(pem@, at as int) == Ok::<Option<(PemItem, int)>, ()>(
                Some((item, left as int)),
            ) && left < pem@.len() - at,
            Ok(None) => pem_read_one(pem@, at as int) == Ok::<Option<(PemItem, int)>, ()>(None),
            Err(()) => pem_read_one(pem@, at as int) == Err::<Option<(PemItem, int)>, ()>(()),
        },
{
    let mut rest: &[u8] = &pem[at..];
    match rustls_pemfile::read_one(&mut rest) {
        Ok(Some(rustls_pemfile::Item::X509Certificate(c))) => Ok(Some((PemItem::X509Certificate(c), rest.len()))),
        Ok(Some(rustls_pemfile::Item::RSAKey(k))) => Ok(Some((PemItem::RsaKey(k), rest.len()))),
        Ok(Some(rustls_pemfile::Item::PKCS8Key(k))) => Ok(Some((PemItem::Pkcs8Key(k), rest.len()))),
        Ok(None) => Ok(None),
        Err(_) => Err(()),
    }
}

/// The view of an optional key.
pub open spec fn key_view(key: Option<Vec<u8>>) -> Option<Seq<u8>> {
    match key {
        Some(k) => Some(k@),
        None => None,
    }
}

/// What reading a PEM file's items from `at` on gives, having read the
/// certificates `certs` and the key `key` before: `None` when an item cannot
/// be read; a second PKCS#8 key is refused as soon as it is read; at the end
/// the chain must have three certificates, then a key; RSA (PKCS#1) keys are
/// passed over.
pub open spec fn pem_outcome(
    pem: Seq<u8>,
    at: int,
    certs: Seq<Seq<u8>>,
    key: Option<Seq<u8>>,
) -> Option<Result<(Seq<Seq<u8>>, Seq<u8>), PemError>>
    decreases pem.len() - at,
{
    match pem_read_one(pem, at) {
        Err(_) => None,
        Ok(None) => Some(
            if certs.len() != 3 {
                Err(PemError::WrongCertificateCount)
            } else {
                match key {
                    None => Err(PemError::MissingPrivateKey),
                    Some(k) => Ok((certs, k)),
                }
            },
        ),
        Ok(Some((item, left))) => {
            let next = pem.len() - left;
            if at < next && left >= 0 {
                match item {
                    PemItem::X509Certificate(c) => pem_outcome(pem, next, certs.push(c@), key),
                    PemItem::RsaKey(_) => pem_outcome(pem, next, certs, key),
                    PemItem::Pkcs8Key(k) => if key is Some {
                        Some(Err(PemError::TooManyKeys))
                    } else {
                        pem_outcome(pem, next, certs, Some(k@))
                    },
                }
            } else {
                None
            }
        },
    }
}

/// The certificate chain and key of a PEM file's bytes, read item by item:
/// `None` when an item cannot be read, else the chain of three certificates
/// and the one PKCS#8 key, or why the file has none.
pub fn certs_and_key_from_pem(pem: &[u8]) -> (r: Option<Result<(Vec<Vec<u8>>, Vec<u8>), PemError>>)
    ensures
        match r {
            None => pem_outcome(pem@, 0, seq![], None) is None,
            Some(Err(e)) => pem_outcome(pem@, 0, seq![], None) == Some(
                Err::<(Seq<Seq<u8>>, Seq<u8>), PemError>(e),
            ),
            Some(Ok((certs, key))) => pem_outcome(pem@, 0, seq![], None) == Some(
                Ok::<(Seq<Seq<u8>>, Seq<u8>), PemError>((certs@.map_values(|c: Vec<u8>| c@), key@)),
            ),
        },
{
    let mut certs: Vec<Vec<u8>> = Vec::new();
    let mut key: Option<Vec<u8>> = None;
    let mut at: usize = 0;
    assert(certs@.map_values(|c: Vec<u8>| c@) =~= Seq::<Seq<u8>>::empty());
    loop
        invariant
            at <= pem@.len(),
            pem_outcome(pem@, 0, seq![], None) == pem_outcome(
                pem@,
                at as int,
                certs@.map_values(|c: Vec<u8>| c@),
                key_view(key),
            ),
        decreases pem@.len() - at,
    {
        let ghost before = certs@.map_values(|c: Vec<u8>| c@);
        match read_pem_item(pem, at) {
            Err(()) => {
                return None;
            },
            Ok(None) => {
                if certs.len() != 3 {
                    return Some(Err(PemError::WrongCertificateCount));
                }
                match key {
                    None => {
                        return Some(Err(PemError::MissingPrivateKey));
                    },
                    Some(k) => {
                        return Some(Ok((certs, k)));
                    },
                }
            },
            Ok(Some((item, left))) => {
                let next = pem.len() - left;
                match item {
                    PemItem::X509Certificate(c) => {
                        let ghost cv = c@;
                        certs.push(c);
                        assert(certs@.map_values(|c: Vec<u8>| c@) =~= before.push(cv));
                    },
                    PemItem::RsaKey(_) => {},
                    PemItem::Pkcs8Key(k) => {
                        if key.is_some() {
                            return Some(Err(PemError::TooManyKeys));
                        }
                        key = Some(k);
                    },
                }
                at = next;
            },
        }
    }
}
/// The items `rustls_pemfile` reads from a PEM file from `at` on, to its
/// end; `None` when one of them cannot be read.
pub open spec fn pem_items_from(pem: Seq<u8>, at: int) -> Option<Seq<PemItem>>
    decreases pem.len() - at,
{
    match pem_read_one(pem, at) {
        Err(_) => None,
        Ok(None) => Some(seq![]),
        Ok(Some((item, left))) => {
            let next = pem.len() - left;
            if at < next && left >= 0 {
                match pem_items_from(pem, next) {
                    Some(rest) => Some(seq![item] + rest),
                    None => None,
                }
            } else {
                None
            }
        },
    }
}

/// The verdict on a file whose certificates and PKCS#8 keys are these, in
/// file order: more than one key is refused, then a chain of other than
/// three certificates, then a missing key; else the chain and the key.
pub open spec fn pem_verdict(certs: Seq<Seq<u8>>, keys: Seq<Seq<u8>>) -> Option<
    Result<(Seq<Seq<u8>>, Seq<u8>), PemError>,
> {
    if keys.len() > 1 {
        Some(Err(PemError::TooManyKeys))
    } else if certs.len() != 3 {
        Some(Err(PemError::WrongCertificateCount))
    } else if keys.len() == 0 {
        Some(Err(PemError::MissingPrivateKey))
    } else {
        Some(Ok((certs, keys[0])))
    }
}

/// The key already read, as a sequence.
pub open spec fn key_seq(key: Option<Seq<u8>>) -> Seq<Seq<u8>> {
    match key {
        Some(k) => seq![k],
        None => seq![],
    }
}

proof fn lemma_of_prepend(x: PemItem, rest: Seq<PemItem>)
    ensures
        certs_of(seq![x] + rest) == match x {
            PemItem::X509Certificate(c) => seq![c@],
            _ => Seq::<Seq<u8>>::empty(),
        } + certs_of(rest),
        keys_of(seq![x] + rest) == match x {
            PemItem::Pkcs8Key(k) => seq![k@],
            _ => Seq::<Seq<u8>>::empty(),
        } + keys_of(rest),
    decreases rest.len(),
{
    let s = seq![x] + rest;
    if rest.len() == 0 {
        assert(s.drop_last() =~= Seq::<PemItem>::empty());
        assert(rest =~= Seq::<PemItem>::empty());
        assert(certs_of(rest) == Seq::<Seq<u8>>::empty());
        assert(keys_of(rest) == Seq::<Seq<u8>>::empty());
        assert(certs_of(s) =~= certs_of(s.drop_last()) + match x {
            PemItem::X509Certificate(c) => seq![c@],
            _ => Seq::<Seq<u8>>::empty(),
        });
        assert(keys_of(s) =~= keys_of(s.drop_last()) + match x {
            PemItem::Pkcs8Key(k) => seq![k@],
            _ => Seq::<Seq<u8>>::empty(),
        });
    } else {
        lemma_of_prepend(x, rest.drop_last());
        assert(s.drop_last() =~= seq![x] + rest.drop_last());
        assert(s.last() == rest.last());
        let cx = match x {
            PemItem::X509Certificate(c) => seq![c@],
            _ => Seq::<Seq<u8>>::empty(),
        };
        let kx = match x {
            PemItem::Pkcs8Key(k) => seq![k@],
            _ => Seq::<Seq<u8>>::empty(),
        };
        match rest.last() {
            PemItem::X509Certificate(c) => {
                assert(cx + certs_of(rest.drop_last()).push(c@) =~= (cx + certs_of(rest.drop_last())).push(c@));
            },
            PemItem::Pkcs8Key(k) => {
                assert(kx + keys_of(rest.drop_last()).push(k@) =~= (kx + keys_of(rest.drop_last())).push(k@));
            },
            _ => {},
        }
    }
}

proof fn lemma_outcome_from(pem: Seq<u8>, at: int, certs: Seq<Seq<u8>>, key: Option<Seq<u8>>)
    requires
        pem_items_from(pem, at) is Some,
    ensures
        pem_outcome(pem, at, certs, key) == pem_verdict(
            certs + certs_of(pem_items_from(pem, at)->0),
            key_seq(key) + keys_of(pem_items_from(pem, at)->0),
        ),
    decreases pem.len() - at,
{
    let items = pem_items_from(pem, at)->0;
    match pem_read_one(pem, at) {
        Err(_) => {},
        Ok(None) => {
            assert(items == Seq::<PemItem>::empty());
            assert(certs_of(items) == Seq::<Seq<u8>>::empty());
            assert(keys_of(items) == Seq::<Seq<u8>>::empty());
            assert(certs + certs_of(items) =~= certs);
            assert(key_seq(key) + keys_of(items) =~= key_seq(key));
        },
        Ok(Some((item, left))) => {
            let next = pem.len() - left;
            let rest = pem_items_from(pem, next)->0;
            assert(items == seq![item] + rest);
            lemma_of_prepend(item, rest);
            match item {
                PemItem::X509Certificate(c) => {
                    lemma_outcome_from(pem, next, certs.push(c@), key);
                    assert(certs + certs_of(items) =~= certs.push(c@) + certs_of(rest));
                    assert(key_seq(key) + keys_of(items) =~= key_seq(key) + keys_of(rest));
                },
                PemItem::RsaKey(_) => {
                    lemma_outcome_from(pem, next, certs, key);
                    assert(certs + certs_of(items) =~= certs + certs_of(rest));
                    assert(key_seq(key) + keys_of(items) =~= key_seq(key) + keys_of(rest));
                },
                PemItem::Pkcs8Key(k) => {
                    if key is Some {
                        assert((key_seq(key) + keys_of(items)).len() >= 2);
                    } else {
                        lemma_outcome_from(pem, next, certs, Some(k@));
                        assert(certs + certs_of(items) =~= certs + certs_of(rest));
                        assert(key_seq(key) + keys_of(items) =~= key_seq(Some(k@)) + keys_of(rest));
                    }
                },
            }
        },
    }
}

/// Reading a PEM file item by item gives what its items hold, whatever
/// their order: when every item can be read, the result is the verdict on
/// its certificates and PKCS#8 keys in file order (RSA keys anywhere are
/// passed over), as `collect_certs_and_key` gives it for the same items.
pub proof fn lemma_pem_outcome_by_items(pem: Seq<u8>)
    requires
        pem_items_from(pem, 0) is Some,
    ensures
        pem_outcome(pem, 0, seq![], None) == pem_verdict(
            certs_of(pem_items_from(pem, 0)->0),
            keys_of(pem_items_from(pem, 0)->0),
        ),
{
    let items = pem_items_from(pem, 0)->0;
    lemma_outcome_from(pem, 0, seq![], None);
    assert(Seq::<Seq<u8>>::empty() + certs_of(items) =~= certs_of(items));
    assert(key_seq(None) + keys_of(items) =~= keys_of(items));
}

} // verus!
