//! The AWS Signature Version 4 authenticator: parsing the `Authorization`
//! header, rebuilding the canonical request and the string to sign,
//! deriving the signing key, and comparing signatures in constant time.

use vstd::prelude::*;
use vstd::string::*;
use vstd::utf8::*;
use crate::error::{S3Error, S3ErrorCode};
use crate::digest::{
    hex_encode, hex_lower, hmac_sha256, hmac_sha256_of, lemma_encoded_chars, lemma_percent_round_trip,
    percent_decode, percent_decoded, percent_encode, percent_encoded, sha256, sha256_of,
};
use crate::order::{
    keys_of, lemma_sort_keys_ordered, lemma_sort_keys_sorted, sort_by_key, sort_keys, Keyed, SortKey,
};
use crate::text::{
    append_chars, chars_of, chars_view, copy_range, join, join_chars, lemma_split_first, lemma_split_join,
    opt_chars,
    split, split_chars, starts_with, string_of, strings_of, strings_view, strip_prefix, trim,
    trim_chars,
};

verus! {

/// The fields of an `Authorization: AWS4-HMAC-SHA256 ...` header.
pub struct ParsedAuth {
    pub access_key: String,
    pub date: String,
    pub region: String,
    pub signed_headers: Vec<String>,
    pub signature: String,
}

/// The scheme that starts every accepted header, with its space.
pub open spec fn scheme_prefix() -> Seq<char> {
    "AWS4-HMAC-SHA256 "@
}

/// Of the comma-separated `parts`, the last one that starts with `p` once
/// trimmed, without `p`.
pub open spec fn last_field(parts: Seq<Seq<char>>, p: Seq<char>) -> Option<Seq<char>>
    decreases parts.len(),
{
    if parts.len() == 0 {
        None
    } else if starts_with(trim(parts.last()), p) {
        Some(trim(parts.last()).skip(p.len() as int))
    } else {
        last_field(parts.drop_last(), p)
    }
}

/// The comma-separated parts after the scheme.
pub open spec fn auth_parts(h: Seq<char>) -> Seq<Seq<char>> {
    split(h.skip(scheme_prefix().len() as int), ',')
}

pub open spec fn credential_of(h: Seq<char>) -> Option<Seq<char>> {
    last_field(auth_parts(h), "Credential="@)
}

pub open spec fn signed_headers_of(h: Seq<char>) -> Option<Seq<char>> {
    last_field(auth_parts(h), "SignedHeaders="@)
}

pub open spec fn signature_of(h: Seq<char>) -> Option<Seq<char>> {
    last_field(auth_parts(h), "Signature="@)
}

/// Why a header is refused, or `None` when it parses.
pub open spec fn auth_header_error(h: Seq<char>) -> Option<Seq<char>> {
    if !starts_with(h, scheme_prefix()) {
        Some("Invalid auth algorithm"@)
    } else if credential_of(h) is None {
        Some("Missing Credential"@)
    } else if signed_headers_of(h) is None {
        Some("Missing SignedHeaders"@)
    } else if signature_of(h) is None {
        Some("Missing Signature"@)
    } else if split(credential_of(h)->0, '/').len() != 5 {
        Some("Invalid Credential format"@)
    } else {
        None
    }
}

/// What a header that parses holds.
pub open spec fn parsed_matches(p: ParsedAuth, h: Seq<char>) -> bool {
    let cred = split(credential_of(h)->0, '/');
    &&& p.access_key@ == cred[0]
    &&& p.date@ == cred[1]
    &&& p.region@ == cred[2]
    &&& strings_view(p.signed_headers@) == split(signed_headers_of(h)->0, ';')
    &&& p.signature@ == signature_of(h)->0
}

/// Parses `AWS4-HMAC-SHA256 Credential=AK/DATE/REGION/SERVICE/aws4_request,
/// SignedHeaders=a;b, Signature=HEX`. Parts are split on `,` and trimmed;
/// the credential must have exactly five `/`-separated fields.
pub fn parse_authorization_header(header: &str) -> (r: Result<ParsedAuth, &'static str>)
    ensures
        r is Err <==> auth_header_error(header@) is Some,
        r matches Err(e) ==> auth_header_error(header@) == Some(e@),
        r matches Ok(p) ==> parsed_matches(p, header@),
{
    let h = chars_of(header);
    let scheme = chars_of("AWS4-HMAC-SHA256 ");
    let rest = match strip_prefix(h.as_slice(), scheme.as_slice()) {
        Some(rest) => rest,
        None => {
            return Err("Invalid auth algorithm");
        },
    };
    let parts = split_chars(rest.as_slice(), ',');
    let cp = chars_of("Credential=");
    let hp = chars_of("SignedHeaders=");
    let sp = chars_of("Signature=");
    let mut credential: Option<Vec<char>> = None;
    let mut signed: Option<Vec<char>> = None;
    let mut signature: Option<Vec<char>> = None;
    let ghost all = auth_parts(header@);
    let mut i: usize = 0;
    while i < parts.len()
        invariant
            i <= parts@.len(),
            chars_view(parts@) == all,
            all == auth_parts(header@),
            cp@ == "Credential="@,
            hp@ == "SignedHeaders="@,
            sp@ == "Signature="@,
            opt_chars(credential) == last_field(all.subrange(0, i as int), cp@),
            opt_chars(signed) == last_field(all.subrange(0, i as int), hp@),
            opt_chars(signature) == last_field(all.subrange(0, i as int), sp@),
        decreases parts@.len() - i,
    {
        let t = trim_chars(parts[i].as_slice());
        proof {
            assert(all.subrange(0, i + 1).drop_last() == all.subrange(0, i as int));
            assert(all.subrange(0, i + 1).last() == parts@[i as int]@);
        }
        match strip_prefix(t.as_slice(), cp.as_slice()) {
            Some(v) => {
                credential = Some(v);
            },
            None => {},
        }
        match strip_prefix(t.as_slice(), hp.as_slice()) {
            Some(v) => {
                signed = Some(v);
            },
            None => {},
        }
        match strip_prefix(t.as_slice(), sp.as_slice()) {
            Some(v) => {
                signature = Some(v);
            },
            None => {},
        }
        i = i + 1;
    }
    proof {
        assert(all.subrange(0, parts@.len() as int) == all);
    }
    let credential = match credential {
        Some(c) => c,
        None => {
            return Err("Missing Credential");
        },
    };
    let signed = match signed {
        Some(c) => c,
        None => {
            return Err("Missing SignedHeaders");
        },
    };
    let signature = match signature {
        Some(c) => c,
        None => {
            return Err("Missing Signature");
        },
    };
    let cred_parts = split_chars(credential.as_slice(), '/');
    if cred_parts.len() != 5 {
        return Err("Invalid Credential format");
    }
    let header_names = split_chars(signed.as_slice(), ';');
    let p = ParsedAuth {
        access_key: string_of(cred_parts[0].as_slice()),
        date: string_of(cred_parts[1].as_slice()),
        region: string_of(cred_parts[2].as_slice()),
        signed_headers: strings_of(&header_names),
        signature: string_of(signature.as_slice()),
    };
    Ok(p)
}

/// The path part of a request target: what comes before the first `?`.
pub open spec fn uri_path(uri: Seq<char>) -> Seq<char> {
    split(uri, '?')[0]
}

/// The canonical URI: `/` for an empty path or `/` itself, else each
/// `/`-separated segment percent-encoded.
pub open spec fn canonical_uri_of(uri: Seq<char>) -> Seq<char> {
    let path = uri_path(uri);
    if path.len() == 0 || path == seq!['/'] {
        seq!['/']
    } else {
        join(split(path, '/').map_values(|seg: Seq<char>| percent_encoded(seg)), '/')
    }
}

pub fn canonical_uri(uri: &str) -> (r: String)
    ensures
        r@ == canonical_uri_of(uri@),
{
    let u = chars_of(uri);
    let pieces = split_chars(u.as_slice(), '?');
    proof {
        lemma_split_first(u@, '?');
    }
    let path = &pieces[0];
    if path.len() == 0 || (path.len() == 1 && path[0] == '/') {
        proof {
            if path@.len() == 1 {
                assert(path@ =~= seq!['/']);
            }
        }
        return string_of(&['/']);
    }
    proof {
        if path@ == seq!['/'] {
            assert(path@.len() == 1 && path@[0] == '/');
        }
    }
    let segs = split_chars(path.as_slice(), '/');
    let ghost spec_segs = split(path@, '/');
    let mut encoded: Vec<Vec<char>> = Vec::new();
    let mut i: usize = 0;
    while i < segs.len()
        invariant
            i <= segs@.len(),
            chars_view(segs@) == spec_segs,
            chars_view(encoded@) == spec_segs.subrange(0, i as int).map_values(
                |seg: Seq<char>| percent_encoded(seg),
            ),
            encoded@.len() == i,
        decreases segs@.len() - i,
    {
        let seg = string_of(segs[i].as_slice());
        let e = percent_encode(seg.as_str());
        let ghost old_e = encoded@;
        encoded.push(e);
        proof {
            assert forall|k: int| 0 <= k < i + 1 implies #[trigger] chars_view(encoded@)[k]
                == spec_segs.subrange(0, i + 1).map_values(|seg: Seq<char>| percent_encoded(seg))[k] by {
                if k < i {
                    assert(chars_view(old_e)[k] == spec_segs.subrange(0, i as int).map_values(
                        |seg: Seq<char>| percent_encoded(seg),
                    )[k]);
                    assert(encoded@[k] == old_e[k]);
                } else {
                    assert(encoded@[k] == e);
                    assert(chars_view(segs@)[k] == segs@[k]@);
                }
            }
            assert(chars_view(encoded@) =~= spec_segs.subrange(0, i + 1).map_values(
                |seg: Seq<char>| percent_encoded(seg),
            ));
        }
        i = i + 1;
    }
    proof {
        assert(spec_segs.subrange(0, segs@.len() as int) == spec_segs);
    }
    let joined = join_chars(&encoded, '/');
    string_of(joined.as_slice())
}

/// The pieces that are not empty, in order.
pub open spec fn nonempty_pieces(s: Seq<Seq<char>>) -> Seq<Seq<char>>
    decreases s.len(),
{
    if s.len() == 0 {
        s
    } else {
        let p = nonempty_pieces(s.drop_last());
        if s.last().len() > 0 {
            p.push(s.last())
        } else {
            p
        }
    }
}

/// The name of a `name=value` query parameter: what precedes the first `=`.
pub open spec fn param_name(piece: Seq<char>) -> Seq<char> {
    split(piece, '=')[0]
}

/// The value of a query parameter: what follows the first `=`, if any.
pub open spec fn param_value(piece: Seq<char>) -> Seq<char> {
    if split(piece, '=').len() > 1 {
        piece.skip(param_name(piece).len() + 1 as int)
    } else {
        Seq::empty()
    }
}

/// A query parameter, name and value percent-decoded.
pub open spec fn decoded_param(piece: Seq<char>) -> SortKey {
    (percent_decoded(param_name(piece)), percent_decoded(param_value(piece)))
}

/// The decoded parameters of a raw query string, empty pieces left out.
pub open spec fn query_params(qs: Seq<char>) -> Seq<SortKey> {
    nonempty_pieces(split(qs, '&')).map_values(|p: Seq<char>| decoded_param(p))
}

/// A parameter re-encoded as `name=value`.
pub open spec fn render_param(k: SortKey) -> Seq<char> {
    percent_encoded(k.0) + seq!['='] + percent_encoded(k.1)
}

/// The canonical query string: parameters decoded, sorted by name and then
/// value, re-encoded and joined with `&`.
pub open spec fn canonical_query_of(qs: Seq<char>) -> Seq<char> {
    if qs.len() == 0 {
        Seq::empty()
    } else {
        join(sort_keys(query_params(qs)).map_values(|k: SortKey| render_param(k)), '&')
    }
}

proof fn lemma_nonempty_all(s: Seq<Seq<char>>)
    requires
        forall|i: int| 0 <= i < s.len() ==> (#[trigger] s[i]).len() > 0,
    ensures
        nonempty_pieces(s) == s,
    decreases s.len(),
{
    if s.len() > 0 {
        assert forall|i: int| 0 <= i < s.drop_last().len() implies (#[trigger] s.drop_last()[i]).len() > 0 by {
            assert(s.drop_last()[i] == s[i]);
        }
        lemma_nonempty_all(s.drop_last());
        assert(s[s.len() - 1].len() > 0);
        assert(s.drop_last().push(s.last()) =~= s);
    }
}

proof fn lemma_render_chars(k: SortKey)
    ensures
        render_param(k).len() > 0,
        forall|i: int| 0 <= i < render_param(k).len() ==> #[trigger] render_param(k)[i] != '&',
{
    let e0 = percent_encoded(k.0);
    let e1 = percent_encoded(k.1);
    lemma_encoded_chars(encode_utf8(k.0));
    lemma_encoded_chars(encode_utf8(k.1));
    let r = render_param(k);
    assert forall|i: int| 0 <= i < r.len() implies #[trigger] r[i] != '&' by {
        if i < e0.len() {
            assert(r[i] == e0[i]);
        } else if i > e0.len() {
            assert(r[i] == e1[i - e0.len() - 1]);
        }
    }
}

/// A rendered parameter decodes to the parameter.
proof fn lemma_decoded_render(k: SortKey)
    ensures
        decoded_param(render_param(k)) == k,
{
    let e0 = percent_encoded(k.0);
    let e1 = percent_encoded(k.1);
    lemma_encoded_chars(encode_utf8(k.0));
    lemma_encoded_chars(encode_utf8(k.1));
    let parts = seq![e0, e1];
    assert(parts.drop_last() =~= seq![e0]);
    assert(join(parts, '=') == join(seq![e0], '=').push('=') + e1);
    assert(render_param(k) =~= join(parts, '='));
    assert forall|a: int, i: int| 0 <= a < parts.len() && 0 <= i < parts[a].len() implies #[trigger] parts[a][i] != '=' by {
        if a == 0 {
            assert(parts[a] == e0);
        } else {
            assert(parts[a] == e1);
        }
    }
    lemma_split_join(parts, '=');
    assert(param_name(render_param(k)) == e0);
    assert(param_value(render_param(k)) =~= e1);
    lemma_percent_round_trip(k.0);
    lemma_percent_round_trip(k.1);
}

/// Canonical query-string normalization is idempotent: canonicalizing a
/// canonical query string gives it back unchanged.
pub proof fn lemma_canonical_query_idempotent(q: Seq<char>)
    ensures
        canonical_query_of(canonical_query_of(q)) == canonical_query_of(q),
{
    let c = canonical_query_of(q);
    if q.len() > 0 && c.len() > 0 {
        let ks = sort_keys(query_params(q));
        let rs = ks.map_values(|k: SortKey| render_param(k));
        assert(c == join(rs, '&'));
        if rs.len() == 0 {
            assert(join(rs, '&').len() == 0);
        } else {
            assert forall|a: int, i: int| 0 <= a < rs.len() && 0 <= i < rs[a].len() implies #[trigger] rs[a][i] != '&' by {
                lemma_render_chars(ks[a]);
            }
            lemma_split_join(rs, '&');
            assert forall|i: int| 0 <= i < rs.len() implies (#[trigger] rs[i]).len() > 0 by {
                lemma_render_chars(ks[i]);
            }
            lemma_nonempty_all(rs);
            let ds = rs.map_values(|p: Seq<char>| decoded_param(p));
            assert forall|i: int| 0 <= i < ks.len() implies #[trigger] ds[i] == ks[i] by {
                lemma_decoded_render(ks[i]);
            }
            assert(query_params(c) =~= ks);
            lemma_sort_keys_ordered(query_params(q));
            lemma_sort_keys_sorted(ks);
        }
    }
}

/// A decoded query parameter, ordered by name and then value.
pub struct QueryParam {
    pub name: Vec<char>,
    pub value: Vec<char>,
}

impl Keyed for QueryParam {
    open spec fn sort_key(&self) -> SortKey {
        (self.name@, self.value@)
    }

    fn key_chars(&self) -> (r: (Vec<char>, Vec<char>)) {
        (copy_range(self.name.as_slice(), 0, self.name.len()), copy_range(self.value.as_slice(), 0, self.value.len()))
    }
}

fn decode_param(piece: &Vec<char>) -> (r: QueryParam)
    ensures
        r.sort_key() == decoded_param(piece@),
{
    let kv = split_chars(piece.as_slice(), '=');
    proof {
        lemma_split_first(piece@, '=');
        assert(chars_view(kv@)[0] == kv@[0]@);
    }
    let name = string_of(kv[0].as_slice());
    let plen = piece.len();
    let value = if kv.len() > 1 {
        let start = kv[0].len();
        string_of(copy_range(piece.as_slice(), start + 1, plen).as_slice())
    } else {
        String::new()
    };
    proof {
        if kv@.len() > 1 {
            assert(piece@.subrange(kv@[0]@.len() + 1 as int, piece@.len() as int) == piece@.skip(
                param_name(piece@).len() + 1 as int,
            ));
        }
    }
    let dn = percent_decode(name.as_str());
    let dv = percent_decode(value.as_str());
    QueryParam { name: chars_of(dn.as_str()), value: chars_of(dv.as_str()) }
}

fn render(p: &QueryParam) -> (r: Vec<char>)
    ensures
        r@ == render_param(p.sort_key()),
{
    let n = string_of(p.name.as_slice());
    let v = string_of(p.value.as_slice());
    let mut out = percent_encode(n.as_str());
    out.push('=');
    let ev = percent_encode(v.as_str());
    append_chars(&mut out, ev.as_slice());
    out
}

pub fn canonical_query_string(qs: &str) -> (r: String)
    ensures
        r@ == canonical_query_of(qs@),
{
    if qs.is_empty() {
        return String::new();
    }
    let q = chars_of(qs);
    let pieces = split_chars(q.as_slice(), '&');
    let ghost sp = split(qs@, '&');
    let mut params: Vec<QueryParam> = Vec::new();
    let mut i: usize = 0;
    while i < pieces.len()
        invariant
            i <= pieces@.len(),
            chars_view(pieces@) == sp,
            keys_of(params@) == nonempty_pieces(sp.subrange(0, i as int)).map_values(
                |p: Seq<char>| decoded_param(p),
            ),
        decreases pieces@.len() - i,
    {
        proof {
            assert(sp.subrange(0, i + 1).drop_last() == sp.subrange(0, i as int));
            assert(sp.subrange(0, i + 1).last() == pieces@[i as int]@);
        }
        if pieces[i].len() > 0 {
            let p = decode_param(&pieces[i]);
            let ghost old_p = params@;
            params.push(p);
            proof {
                assert(keys_of(params@) =~= keys_of(old_p).push(p.sort_key()));
                assert(nonempty_pieces(sp.subrange(0, i + 1)) == nonempty_pieces(
                    sp.subrange(0, i as int),
                ).push(pieces@[i as int]@));
                assert(keys_of(params@) =~= nonempty_pieces(sp.subrange(0, i + 1)).map_values(
                    |p: Seq<char>| decoded_param(p),
                ));
            }
        }
        i = i + 1;
    }
    proof {
        assert(sp.subrange(0, pieces@.len() as int) == sp);
    }
    let sorted = sort_by_key(params);
    let ghost ks = keys_of(sorted@);
    let mut rendered: Vec<Vec<char>> = Vec::new();
    let mut j: usize = 0;
    while j < sorted.len()
        invariant
            j <= sorted@.len(),
            ks == keys_of(sorted@),
            rendered@.len() == j,
            chars_view(rendered@) == ks.subrange(0, j as int).map_values(|k: SortKey| render_param(k)),
        decreases sorted@.len() - j,
    {
        let one = render(&sorted[j]);
        let ghost old_r = rendered@;
        rendered.push(one);
        proof {
            assert forall|k: int| 0 <= k < j + 1 implies #[trigger] chars_view(rendered@)[k]
                == ks.subrange(0, j + 1).map_values(|k: SortKey| render_param(k))[k] by {
                if k < j {
                    assert(chars_view(old_r)[k] == ks.subrange(0, j as int).map_values(
                        |k: SortKey| render_param(k),
                    )[k]);
                    assert(rendered@[k] == old_r[k]);
                } else {
                    assert(rendered@[k] == one);
                }
            }
            assert(chars_view(rendered@) =~= ks.subrange(0, j + 1).map_values(
                |k: SortKey| render_param(k),
            ));
        }
        j = j + 1;
    }
    proof {
        assert(ks.subrange(0, sorted@.len() as int) == ks);
    }
    let joined = join_chars(&rendered, '&');
    string_of(joined.as_slice())
}

/// Request headers as (name, value) pairs, seen as characters.
pub open spec fn headers_view(h: Seq<(String, String)>) -> Seq<(Seq<char>, Seq<char>)> {
    h.map_values(|p: (String, String)| (p.0@, p.1@))
}

/// The values of the headers named `name`, in order.
pub open spec fn values_for(h: Seq<(Seq<char>, Seq<char>)>, name: Seq<char>) -> Seq<Seq<char>>
    decreases h.len(),
{
    if h.len() == 0 {
        Seq::empty()
    } else {
        let prev = values_for(h.drop_last(), name);
        if h.last().0 == name {
            prev.push(h.last().1)
        } else {
            prev
        }
    }
}

/// The first value of the header `name`, if there is one.
pub open spec fn first_value(h: Seq<(Seq<char>, Seq<char>)>, name: Seq<char>) -> Option<Seq<char>> {
    if values_for(h, name).len() > 0 {
        Some(values_for(h, name)[0])
    } else {
        None
    }
}

/// One canonical header line: `name:values\n`, the values joined with `,`
/// and trimmed.
pub open spec fn header_line(h: Seq<(Seq<char>, Seq<char>)>, name: Seq<char>) -> Seq<char> {
    name + seq![':'] + trim(join(values_for(h, name), ',')) + seq!['\n']
}

/// The canonical headers: one line for each signed header, in the order
/// given.
pub open spec fn canonical_headers_of(h: Seq<(Seq<char>, Seq<char>)>, names: Seq<Seq<char>>) -> Seq<char>
    decreases names.len(),
{
    if names.len() == 0 {
        Seq::empty()
    } else {
        canonical_headers_of(h, names.drop_last()) + header_line(h, names.last())
    }
}

fn header_values(headers: &Vec<(String, String)>, name: &String) -> (r: Vec<Vec<char>>)
    ensures
        chars_view(r@) == values_for(headers_view(headers@), name@),
{
    let ghost hv = headers_view(headers@);
    let mut r: Vec<Vec<char>> = Vec::new();
    let mut i: usize = 0;
    while i < headers.len()
        invariant
            i <= headers@.len(),
            hv == headers_view(headers@),
            chars_view(r@) == values_for(hv.subrange(0, i as int), name@),
        decreases headers@.len() - i,
    {
        proof {
            assert(hv.subrange(0, i + 1).drop_last() == hv.subrange(0, i as int));
            assert(hv.subrange(0, i + 1).last() == (headers@[i as int].0@, headers@[i as int].1@));
        }
        if headers[i].0 == *name {
            let v = chars_of(headers[i].1.as_str());
            let ghost old_r = r@;
            r.push(v);
            proof {
                assert(chars_view(r@) =~= chars_view(old_r).push(v@));
            }
        }
        i = i + 1;
    }
    proof {
        assert(hv.subrange(0, headers@.len() as int) == hv);
    }
    r
}

/// The canonical headers block for the signed header names.
pub fn canonical_headers(headers: &Vec<(String, String)>, signed: &Vec<String>) -> (r: String)
    ensures
        r@ == canonical_headers_of(headers_view(headers@), strings_view(signed@)),
{
    let ghost names = strings_view(signed@);
    let ghost hv = headers_view(headers@);
    let mut out: Vec<char> = Vec::new();
    let mut i: usize = 0;
    while i < signed.len()
        invariant
            i <= signed@.len(),
            names == strings_view(signed@),
            hv == headers_view(headers@),
            out@ == canonical_headers_of(hv, names.subrange(0, i as int)),
        decreases signed@.len() - i,
    {
        proof {
            assert(names.subrange(0, i + 1).drop_last() == names.subrange(0, i as int));
            assert(names.subrange(0, i + 1).last() == signed@[i as int]@);
        }
        let name = chars_of(signed[i].as_str());
        append_chars(&mut out, name.as_slice());
        out.push(':');
        let values = header_values(headers, &signed[i]);
        let joined = join_chars(&values, ',');
        let trimmed = trim_chars(joined.as_slice());
        append_chars(&mut out, trimmed.as_slice());
        out.push('\n');
        proof {
            assert(out@ =~= canonical_headers_of(hv, names.subrange(0, i as int)) + header_line(
                hv,
                signed@[i as int]@,
            ));
        }
        i = i + 1;
    }
    proof {
        assert(names.subrange(0, signed@.len() as int) == names);
    }
    string_of(out.as_slice())
}

/// The payload hash that the client declared, or `UNSIGNED-PAYLOAD`.
pub open spec fn payload_hash_of(h: Seq<(Seq<char>, Seq<char>)>) -> Seq<char> {
    match first_value(h, "x-amz-content-sha256"@) {
        Some(v) => v,
        None => "UNSIGNED-PAYLOAD"@,
    }
}

/// The request time that the client declared, or nothing.
pub open spec fn amz_date_of(h: Seq<(Seq<char>, Seq<char>)>) -> Seq<char> {
    match first_value(h, "x-amz-date"@) {
        Some(v) => v,
        None => Seq::empty(),
    }
}

/// The canonical request.
pub open spec fn canonical_request_of(
    method: Seq<char>,
    uri: Seq<char>,
    query: Seq<char>,
    h: Seq<(Seq<char>, Seq<char>)>,
    signed: Seq<Seq<char>>,
) -> Seq<char> {
    method + seq!['\n'] + canonical_uri_of(uri) + seq!['\n'] + canonical_query_of(query) + seq!['\n']
        + canonical_headers_of(h, signed) + seq!['\n'] + join(signed, ';') + seq!['\n']
        + payload_hash_of(h)
}

/// The string to sign for a canonical request.
pub open spec fn string_to_sign_of(
    canonical_request: Seq<char>,
    h: Seq<(Seq<char>, Seq<char>)>,
    date: Seq<char>,
    region: Seq<char>,
) -> Seq<char> {
    "AWS4-HMAC-SHA256"@ + seq!['\n'] + amz_date_of(h) + seq!['\n'] + date + seq!['/'] + region
        + "/s3/aws4_request"@ + seq!['\n'] + hex_lower(sha256_of(encode_utf8(canonical_request)))
}

/// The signing key derived from the secret, the date and the region.
pub open spec fn signing_key_of(secret: Seq<char>, date: Seq<char>, region: Seq<char>) -> Seq<u8> {
    let k_date = hmac_sha256_of(encode_utf8("AWS4"@ + secret), encode_utf8(date));
    let k_region = hmac_sha256_of(k_date, encode_utf8(region));
    let k_service = hmac_sha256_of(k_region, encode_utf8("s3"@));
    hmac_sha256_of(k_service, encode_utf8("aws4_request"@))
}

/// The signature the server expects for a request.
pub open spec fn expected_signature(
    method: Seq<char>,
    uri: Seq<char>,
    query: Seq<char>,
    h: Seq<(Seq<char>, Seq<char>)>,
    signed: Seq<Seq<char>>,
    date: Seq<char>,
    region: Seq<char>,
    secret: Seq<char>,
) -> Seq<char> {
    let creq = canonical_request_of(method, uri, query, h, signed);
    hex_lower(
        hmac_sha256_of(
            signing_key_of(secret, date, region),
            encode_utf8(string_to_sign_of(creq, h, date, region)),
        ),
    )
}

fn first_or(values: &Vec<Vec<char>>, default: &str) -> (r: Vec<char>)
    ensures
        r@ == (if values@.len() > 0 { values@[0]@ } else { default@ }),
{
    if values.len() > 0 {
        copy_range(values[0].as_slice(), 0, values[0].len())
    } else {
        chars_of(default)
    }
}

pub fn build_canonical_request(
    method: &str,
    uri: &str,
    query_string: &str,
    headers: &Vec<(String, String)>,
    parsed: &ParsedAuth,
) -> (r: String)
    ensures
        r@ == canonical_request_of(
            method@,
            uri@,
            query_string@,
            headers_view(headers@),
            strings_view(parsed.signed_headers@),
        ),
{
    let mut out = chars_of(method);
    out.push('\n');
    let cu = canonical_uri(uri);
    append_chars(&mut out, chars_of(cu.as_str()).as_slice());
    out.push('\n');
    let cq = canonical_query_string(query_string);
    append_chars(&mut out, chars_of(cq.as_str()).as_slice());
    out.push('\n');
    let ch = canonical_headers(headers, &parsed.signed_headers);
    append_chars(&mut out, chars_of(ch.as_str()).as_slice());
    out.push('\n');
    let names = names_chars(&parsed.signed_headers);
    let sh = join_chars(&names, ';');
    append_chars(&mut out, sh.as_slice());
    out.push('\n');
    let hash_values = header_values(headers, &String::from_str("x-amz-content-sha256"));
    let hash = first_or(&hash_values, "UNSIGNED-PAYLOAD");
    append_chars(&mut out, hash.as_slice());
    proof {
        assert(out@ =~= canonical_request_of(
            method@,
            uri@,
            query_string@,
            headers_view(headers@),
            strings_view(parsed.signed_headers@),
        ));
    }
    string_of(out.as_slice())
}

fn names_chars(names: &Vec<String>) -> (r: Vec<Vec<char>>)
    ensures
        chars_view(r@) == strings_view(names@),
{
    let mut r: Vec<Vec<char>> = Vec::new();
    let mut i: usize = 0;
    while i < names.len()
        invariant
            i <= names@.len(),
            r@.len() == i,
            chars_view(r@) == strings_view(names@.subrange(0, i as int)),
        decreases names@.len() - i,
    {
        let c = chars_of(names[i].as_str());
        let ghost old_r = r@;
        r.push(c);
        proof {
            assert forall|k: int| 0 <= k < i + 1 implies #[trigger] chars_view(r@)[k] == strings_view(
                names@.subrange(0, i + 1),
            )[k] by {
                if k < i {
                    assert(chars_view(old_r)[k] == strings_view(names@.subrange(0, i as int))[k]);
                    assert(r@[k] == old_r[k]);
                } else {
                    assert(r@[k] == c);
                }
            }
            assert(chars_view(r@) =~= strings_view(names@.subrange(0, i + 1)));
        }
        i = i + 1;
    }
    proof {
        assert(names@.subrange(0, names@.len() as int) == names@);
    }
    r
}

pub fn build_string_to_sign(
    canonical_request: &str,
    headers: &Vec<(String, String)>,
    parsed: &ParsedAuth,
) -> (r: String)
    ensures
        r@ == string_to_sign_of(
            canonical_request@,
            headers_view(headers@),
            parsed.date@,
            parsed.region@,
        ),
{
    let mut out = chars_of("AWS4-HMAC-SHA256");
    out.push('\n');
    let date_values = header_values(headers, &String::from_str("x-amz-date"));
    let ts = first_or(&date_values, "");
    append_chars(&mut out, ts.as_slice());
    out.push('\n');
    append_chars(&mut out, chars_of(parsed.date.as_str()).as_slice());
    out.push('/');
    append_chars(&mut out, chars_of(parsed.region.as_str()).as_slice());
    append_chars(&mut out, chars_of("/s3/aws4_request").as_slice());
    out.push('\n');
    let digest = sha256(canonical_request.as_bytes());
    let hex = hex_encode(digest.as_slice());
    append_chars(&mut out, chars_of(hex.as_str()).as_slice());
    proof {
        reveal_strlit("");
        assert(out@ =~= string_to_sign_of(
            canonical_request@,
            headers_view(headers@),
            parsed.date@,
            parsed.region@,
        ));
    }
    string_of(out.as_slice())
}

/// Derives the signing key: HMAC-SHA256 chained over the date, the region,
/// `s3` and `aws4_request`, starting from `AWS4` and the secret.
pub fn derive_signing_key(secret_key: &str, date: &str, region: &str) -> (r: Vec<u8>)
    ensures
        r@ == signing_key_of(secret_key@, date@, region@),
        r@.len() == 32,
{
    let mut key = String::from_str("AWS4");
    key.append(secret_key);
    let k_date = hmac_sha256(key.as_str().as_bytes(), date.as_bytes());
    let k_region = hmac_sha256(k_date.as_slice(), region.as_bytes());
    let k_service = hmac_sha256(k_region.as_slice(), "s3".as_bytes());
    hmac_sha256(k_service.as_slice(), "aws4_request".as_bytes())
}

/// Compares two byte strings in time that depends on their length only.
pub fn constant_time_eq(a: &[u8], b: &[u8]) -> (r: bool)
    ensures
        r == (a@ == b@),
{
    if a.len() != b.len() {
        return false;
    }
    let mut diff: u8 = 0;
    let mut i: usize = 0;
    proof {
        assert(a@.subrange(0, 0) =~= b@.subrange(0, 0));
    }
    while i < a.len()
        invariant
            i <= a@.len(),
            a@.len() == b@.len(),
            (diff == 0) == (a@.subrange(0, i as int) == b@.subrange(0, i as int)),
        decreases a@.len() - i,
    {
        let x = a[i];
        let y = b[i];
        let ghost d = diff;
        diff = diff | (x ^ y);
        proof {
            assert((d | (x ^ y)) == 0 <==> (d == 0 && x == y)) by (bit_vector);
            if a@.subrange(0, i + 1) == b@.subrange(0, i + 1) {
                assert(a@.subrange(0, i + 1)[i as int] == b@.subrange(0, i + 1)[i as int]);
                assert(a@.subrange(0, i as int) =~= a@.subrange(0, i + 1).drop_last());
                assert(b@.subrange(0, i as int) =~= b@.subrange(0, i + 1).drop_last());
            }
            if d == 0 && x == y {
                assert(a@.subrange(0, i + 1) =~= b@.subrange(0, i + 1));
            }
        }
        i = i + 1;
    }
    proof {
        assert(a@.subrange(0, a@.len() as int) == a@);
        assert(b@.subrange(0, b@.len() as int) == b@);
    }
    diff == 0
}

/// Recomputes the signature of a request and compares it with the one the
/// client sent.
pub fn verify_signature(
    method: &str,
    uri: &str,
    query_string: &str,
    headers: &Vec<(String, String)>,
    parsed: &ParsedAuth,
    secret_key: &str,
) -> (r: bool)
    ensures
        r == (expected_signature(
            method@,
            uri@,
            query_string@,
            headers_view(headers@),
            strings_view(parsed.signed_headers@),
            parsed.date@,
            parsed.region@,
            secret_key@,
        ) == parsed.signature@),
{
    let canonical_request = build_canonical_request(method, uri, query_string, headers, parsed);
    let string_to_sign = build_string_to_sign(canonical_request.as_str(), headers, parsed);
    let signing_key = derive_signing_key(secret_key, parsed.date.as_str(), parsed.region.as_str());
    let mac = hmac_sha256(signing_key.as_slice(), string_to_sign.as_str().as_bytes());
    let computed = hex_encode(mac.as_slice());
    let r = constant_time_eq(computed.as_str().as_bytes(), parsed.signature.as_str().as_bytes());
    proof {
        broadcast use vstd::utf8::encode_utf8_decode_utf8;
        assert(decode_utf8(encode_utf8(computed@)) == computed@);
        assert(decode_utf8(encode_utf8(parsed.signature@)) == parsed.signature@);
    }
    r
}

/// Signing is deterministic: the same method, path, query, headers, signed
/// header names, scope and secret give byte-identical signatures.
pub proof fn lemma_signature_deterministic(
    method: Seq<char>,
    uri: Seq<char>,
    query: Seq<char>,
    h: Seq<(Seq<char>, Seq<char>)>,
    signed: Seq<Seq<char>>,
    date: Seq<char>,
    region: Seq<char>,
    secret: Seq<char>,
    method2: Seq<char>,
    uri2: Seq<char>,
    query2: Seq<char>,
    h2: Seq<(Seq<char>, Seq<char>)>,
    signed2: Seq<Seq<char>>,
    date2: Seq<char>,
    region2: Seq<char>,
    secret2: Seq<char>,
)
    requires
        method == method2,
        uri == uri2,
        query == query2,
        h == h2,
        signed == signed2,
        date == date2,
        region == region2,
        secret == secret2,
    ensures
        encode_utf8(expected_signature(method, uri, query, h, signed, date, region, secret))
            == encode_utf8(expected_signature(method2, uri2, query2, h2, signed2, date2, region2, secret2)),
{
}

/// The credentials that the service accepts.
pub struct Credentials {
    pub access_key: String,
    pub secret_key: String,
    pub region: String,
}

/// Why a request fails authentication, as an error code and message, or
/// `None` when it passes.
pub open spec fn auth_failure(
    authorization: Option<Seq<char>>,
    access_key: Seq<char>,
    secret_key: Seq<char>,
    region: Seq<char>,
    method: Seq<char>,
    uri: Seq<char>,
    query: Seq<char>,
    h: Seq<(Seq<char>, Seq<char>)>,
) -> Option<(S3ErrorCode, Seq<char>)> {
    match authorization {
        None => Some((S3ErrorCode::AccessDenied, "Missing Authorization header"@)),
        Some(a) => {
            if auth_header_error(a) is Some {
                Some((S3ErrorCode::AccessDenied, auth_header_error(a)->0))
            } else {
                let cred = split(credential_of(a)->0, '/');
                if cred[0] != access_key {
                    Some(
                        (
                            S3ErrorCode::InvalidAccessKeyId,
                            "The AWS Access Key Id you provided does not exist in our records."@,
                        ),
                    )
                } else if cred[2] != region {
                    Some((S3ErrorCode::AccessDenied, "Invalid region in credential scope"@))
                } else if expected_signature(
                    method,
                    uri,
                    query,
                    h,
                    split(signed_headers_of(a)->0, ';'),
                    cred[1],
                    cred[2],
                    secret_key,
                ) != signature_of(a)->0 {
                    Some(
                        (
                            S3ErrorCode::SignatureDoesNotMatch,
                            "The request signature we calculated does not match the signature you provided."@,
                        ),
                    )
                } else {
                    None
                }
            }
        },
    }
}

/// Authenticates a request: the `Authorization` header (if any) is parsed,
/// its access key and region are checked against the credentials, and its
/// signature against the one recomputed from the request.
pub fn authenticate(
    authorization: Option<&str>,
    creds: &Credentials,
    method: &str,
    uri: &str,
    query_string: &str,
    headers: &Vec<(String, String)>,
) -> (r: Result<(), S3Error>)
    ensures
        ({
            let f = auth_failure(
                match authorization {
                    Some(a) => Some(a@),
                    None => None,
                },
                creds.access_key@,
                creds.secret_key@,
                creds.region@,
                method@,
                uri@,
                query_string@,
                headers_view(headers@),
            );
            &&& r is Ok <==> f is None
            &&& r matches Err(e) ==> (f matches Some(p) && e.code == p.0 && e.message@ == p.1)
        }),
{
    let header = match authorization {
        Some(h) => h,
        None => {
            return Err(S3Error::access_denied("Missing Authorization header"));
        },
    };
    let parsed = match parse_authorization_header(header) {
        Ok(p) => p,
        Err(msg) => {
            return Err(S3Error::access_denied(msg));
        },
    };
    if !(parsed.access_key == creds.access_key) {
        return Err(S3Error::invalid_access_key());
    }
    if !(parsed.region == creds.region) {
        return Err(S3Error::access_denied("Invalid region in credential scope"));
    }
    if !verify_signature(method, uri, query_string, headers, &parsed, creds.secret_key.as_str()) {
        return Err(S3Error::signature_mismatch());
    }
    Ok(())
}

} // verus!
