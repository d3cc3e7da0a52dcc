//! The substitution engine: a key-to-value mapping and the rewriting of
//! `{{ name }}` placeholder tokens in a body.

use vstd::prelude::*;

verus! {

/// The literal token that stands for the placeholder `key` in a body:
/// `{{ key }}`, with one space on each side of the key.
pub open spec fn wrap_spec(key: Seq<char>) -> Seq<char> {
    seq!['{', '{', ' '] + key + seq![' ', '}', '}']
}

/// Whether `pat` occurs in `s` at position `i`.
pub open spec fn occurs_at(s: Seq<char>, pat: Seq<char>, i: int) -> bool {
    0 <= i && i + pat.len() <= s.len() && s.subrange(i, i + pat.len()) == pat
}

/// Whether `pat` occurs anywhere in `s`.
pub open spec fn contains_seq(s: Seq<char>, pat: Seq<char>) -> bool {
    exists|i: int| occurs_at(s, pat, i)
}

/// `s` with every occurrence of `pat` replaced by `rep`: a single scan from
/// the left over non-overlapping occurrences, the replacement text never
/// rescanned.
pub open spec fn replace_all_spec(s: Seq<char>, pat: Seq<char>, rep: Seq<char>) -> Seq<char>
    recommends
        pat.len() > 0,
    decreases s.len(),
{
    if s.len() == 0 {
        s
    } else if pat.len() > 0 && occurs_at(s, pat, 0) {
        rep + replace_all_spec(s.skip(pat.len() as int), pat, rep)
    } else {
        seq![s[0]] + replace_all_spec(s.skip(1), pat, rep)
    }
}

/// Whether `pat` stands at position `i` of `s`.
fn matches_at(s: &str, i: usize, pat: &str) -> (r: bool)
    requires
        i <= s@.len(),
    ensures
        r == occurs_at(s@, pat@, i as int),
{
    let slen = s.unicode_len();
    let plen = pat.unicode_len();
    if plen > slen - i {
        return false;
    }
    let mut j: usize = 0;
    while j < plen
        invariant
            j <= plen,
            i + plen <= slen,
            slen == s@.len(),
            plen == pat@.len(),
            forall|k: int| 0 <= k < j ==> s@[i + k] == pat@[k],
        decreases plen - j,
    {
        if s.get_char(i + j) != pat.get_char(j) {
            proof {
                assert(s@.subrange(i as int, i as int + plen as int)[j as int] == s@[i + j]);
            }
            return false;
        }
        j = j + 1;
    }
    proof {
        assert(s@.subrange(i as int, i as int + plen as int) =~= pat@);
    }
    true
}

/// Replaces every occurrence of `pat` in `s` by `rep`, scanning once from the
/// left, as `replace_all_spec` describes.
fn replace_all(s: &str, pat: &str, rep: &str) -> (r: String)
    requires
        pat@.len() > 0,
    ensures
        r@ == replace_all_spec(s@, pat@, rep@),
{
    let slen = s.unicode_len();
    let plen = pat.unicode_len();
    let mut out = String::new();
    let mut i: usize = 0;
    proof {
        assert(s@.skip(0) =~= s@);
        assert(out@ + replace_all_spec(s@, pat@, rep@) =~= replace_all_spec(s@, pat@, rep@));
    }
    while i < slen
        invariant
            i <= slen,
            slen == s@.len(),
            plen == pat@.len(),
            plen > 0,
            replace_all_spec(s@, pat@, rep@) == out@ + replace_all_spec(
                s@.skip(i as int),
                pat@,
                rep@,
            ),
        decreases slen - i,
    {
        let ghost old_out = out@;
        let ghost suffix = s@.skip(i as int);
        if matches_at(s, i, pat) {
            proof {
                assert(suffix.subrange(0, plen as int) =~= s@.subrange(
                    i as int,
                    i as int + plen as int,
                ));
                assert(occurs_at(suffix, pat@, 0));
                assert(suffix.skip(plen as int) =~= s@.skip(i as int + plen as int));
            }
            out.append(rep);
            proof {
                assert(old_out + (rep@ + replace_all_spec(
                    s@.skip(i as int + plen as int),
                    pat@,
                    rep@,
                )) =~= out@ + replace_all_spec(s@.skip(i as int + plen as int), pat@, rep@));
            }
            i = i + plen;
        } else {
            proof {
                if occurs_at(suffix, pat@, 0) {
                    assert(suffix.subrange(0, plen as int) =~= s@.subrange(
                        i as int,
                        i as int + plen as int,
                    ));
                    assert(occurs_at(s@, pat@, i as int));
                }
                assert(suffix[0] == s@[i as int]);
                assert(suffix.skip(1) =~= s@.skip(i as int + 1));
                assert(s@.subrange(i as int, i as int + 1) =~= seq![s@[i as int]]);
            }
            let c = s.substring_char(i, i + 1);
            out.append(c);
            proof {
                assert(old_out + (seq![s@[i as int]] + replace_all_spec(
                    s@.skip(i as int + 1),
                    pat@,
                    rep@,
                )) =~= out@ + replace_all_spec(s@.skip(i as int + 1), pat@, rep@));
            }
            i = i + 1;
        }
    }
    proof {
        assert(s@.skip(slen as int) =~= Seq::<char>::empty());
        assert(out@ + Seq::<char>::empty() =~= out@);
    }
    out
}

/// Builds the literal placeholder token `{{ key }}`.
fn wrap_token(key: &str) -> (t: String)
    ensures
        t@ == wrap_spec(key@),
{
    let open = "{{ ";
    let close = " }}";
    proof {
        reveal_strlit("{{ ");
        reveal_strlit(" }}");
    }
    let mut t = open.to_owned();
    t.append(key);
    t.append(close);
    proof {
        assert(t@ =~= wrap_spec(key@));
    }
    t
}

/// The position of the first pair bound to `key`, or -1 when the key is
/// absent.
pub open spec fn find_key(pairs: Seq<(Seq<char>, Seq<char>)>, key: Seq<char>) -> int
    decreases pairs.len(),
{
    if pairs.len() == 0 {
        -1
    } else if pairs[0].0 == key {
        0
    } else {
        let r = find_key(pairs.skip(1), key);
        if r == -1 {
            -1
        } else {
            r + 1
        }
    }
}

/// The mapping after binding `key` to `value`: the pair at `key`'s position
/// is replaced when the key is already bound, else a new pair is appended.
pub open spec fn spec_insert(
    pairs: Seq<(Seq<char>, Seq<char>)>,
    key: Seq<char>,
    value: Seq<char>,
) -> Seq<(Seq<char>, Seq<char>)> {
    let i = find_key(pairs, key);
    if i >= 0 {
        pairs.update(i, (key, value))
    } else {
        pairs.push((key, value))
    }
}

/// The value bound to `key`, when one is.
pub open spec fn spec_get(pairs: Seq<(Seq<char>, Seq<char>)>, key: Seq<char>) -> Option<
    Seq<char>,
> {
    let i = find_key(pairs, key);
    if i >= 0 {
        Some(pairs[i].1)
    } else {
        None
    }
}

proof fn lemma_find_key_at(pairs: Seq<(Seq<char>, Seq<char>)>, key: Seq<char>, j: int)
    requires
        0 <= j < pairs.len(),
        pairs[j].0 == key,
        forall|i: int| 0 <= i < j ==> pairs[i].0 != key,
    ensures
        find_key(pairs, key) == j,
    decreases j,
{
    if j == 0 {
    } else {
        assert(pairs[0].0 != key);
        assert(pairs.skip(1)[j - 1] == pairs[j]);
        assert forall|i: int| 0 <= i < j - 1 implies pairs.skip(1)[i].0 != key by {
            assert(pairs.skip(1)[i] == pairs[i + 1]);
        }
        lemma_find_key_at(pairs.skip(1), key, j - 1);
    }
}

proof fn lemma_find_key_absent(pairs: Seq<(Seq<char>, Seq<char>)>, key: Seq<char>)
    requires
        forall|i: int| 0 <= i < pairs.len() ==> pairs[i].0 != key,
    ensures
        find_key(pairs, key) == -1,
    decreases pairs.len(),
{
    if pairs.len() > 0 {
        assert forall|i: int| 0 <= i < pairs.skip(1).len() implies pairs.skip(1)[i].0 != key by {
            assert(pairs.skip(1)[i] == pairs[i + 1]);
        }
        lemma_find_key_absent(pairs.skip(1), key);
    }
}

/// The key-to-value mapping that drives placeholder replacement. Keys are
/// held without their `{{ }}` decoration and are unique; the pairs keep
/// their insertion order, which is also the order substitution applies them
/// in.
pub struct SubstitutionMap {
    pairs: Vec<(String, String)>,
}

impl View for SubstitutionMap {
    type V = Seq<(Seq<char>, Seq<char>)>;

    closed spec fn view(&self) -> Seq<(Seq<char>, Seq<char>)> {
        self.pairs.deep_view()
    }
}

impl SubstitutionMap {
    /// Well-formed: no two pairs share a key.
    pub open spec fn wf(&self) -> bool {
        forall|i: int, j: int| 0 <= i < j < self@.len() ==> self@[i].0 != self@[j].0
    }

    /// An empty mapping.
    pub fn new() -> (r: Self)
        ensures
            r@ == Seq::<(Seq<char>, Seq<char>)>::empty(),
            r.wf(),
    {
        let r = SubstitutionMap { pairs: Vec::new() };
        proof {
            assert(r@ =~= Seq::<(Seq<char>, Seq<char>)>::empty());
        }
        r
    }

    /// How many keys are bound.
    pub fn len(&self) -> (n: usize)
        ensures
            n == self@.len(),
    {
        self.pairs.len()
    }

    /// Binds `key` to `value`: replaces the key's pair when it is already
    /// bound, else appends a new pair.
    pub fn insert(&mut self, key: String, value: String)
        requires
            old(self).wf(),
        ensures
            final(self)@ == spec_insert(old(self)@, key@, value@),
            final(self).wf(),
    {
        let ghost old_view = self@;
        let n = self.pairs.len();
        let mut j: usize = 0;
        while j < n
            invariant
                j <= n,
                n == self.pairs@.len(),
                self@ == old_view,
                old(self)@ == old_view,
                old(self).wf(),
                forall|i: int| 0 <= i < j ==> self@[i].0 != key@,
            decreases n - j,
        {
            proof {
                assert(self@[j as int] == (self.pairs@[j as int].0@, self.pairs@[j as int].1@));
            }
            if self.pairs[j].0 == key {
                proof {
                    lemma_find_key_at(old_view, key@, j as int);
                }
                self.pairs.set(j, (key, value));
                proof {
                    assert(self@ =~= old_view.update(j as int, (key@, value@)));
                    assert forall|a: int, b: int| 0 <= a < b < self@.len() implies self@[a].0
                        != self@[b].0 by {
                        assert(old_view[a].0 != old_view[b].0);
                        assert(self@[a].0 == old_view[a].0);
                        assert(self@[b].0 == old_view[b].0);
                    }
                }
                return ;
            }
            j = j + 1;
        }
        proof {
            lemma_find_key_absent(old_view, key@);
        }
        self.pairs.push((key, value));
        proof {
            assert(self@ =~= old_view.push((key@, value@)));
            assert forall|a: int, b: int| 0 <= a < b < self@.len() implies self@[a].0
                != self@[b].0 by {
                if b == self@.len() - 1 {
                    assert(self@[a].0 == old_view[a].0);
                    assert(self@[b].0 == key@);
                } else {
                    assert(old_view[a].0 != old_view[b].0);
                }
            }
        }
    }

    /// Looks `key` up: the bound value, or nothing when the key is absent.
    pub fn get(&self, key: &str) -> (r: Option<String>)
        ensures
            r.deep_view() == spec_get(self@, key@),
    {
        let key_owned = key.to_owned();
        let n = self.pairs.len();
        let mut j: usize = 0;
        while j < n
            invariant
                j <= n,
                n == self.pairs@.len(),
                key_owned@ == key@,
                forall|i: int| 0 <= i < j ==> self@[i].0 != key@,
            decreases n - j,
        {
            proof {
                assert(self@[j as int] == (self.pairs@[j as int].0@, self.pairs@[j as int].1@));
            }
            if self.pairs[j].0 == key_owned {
                proof {
                    lemma_find_key_at(self@, key@, j as int);
                }
                return Some(self.pairs[j].1.clone());
            }
            j = j + 1;
        }
        proof {
            lemma_find_key_absent(self@, key@);
        }
        None
    }
}

/// The body after applying each pair in order: the token `{{ key }}` of pair
/// `i` is replaced everywhere by its value, acting on the result of the
/// pairs before it, so a value that itself holds token-shaped text is live
/// for the later pairs.
pub open spec fn substitute_spec(body: Seq<char>, pairs: Seq<(Seq<char>, Seq<char>)>) -> Seq<
    char,
>
    decreases pairs.len(),
{
    if pairs.len() == 0 {
        body
    } else {
        substitute_spec(
            replace_all_spec(body, wrap_spec(pairs[0].0), pairs[0].1),
            pairs.skip(1),
        )
    }
}

/// Rewrites every `{{ key }}` placeholder of `body` whose key `subs` binds,
/// pair by pair in the mapping's order, as `substitute_spec` describes.
/// Tokens of unbound keys stay verbatim.
pub fn substitute(body: &str, subs: &SubstitutionMap) -> (r: String)
    ensures
        r@ == substitute_spec(body@, subs@),
{
    let mut cur = body.to_owned();
    let n = subs.len();
    let mut k: usize = 0;
    proof {
        assert(subs@.skip(0) =~= subs@);
    }
    while k < n
        invariant
            k <= n,
            n == subs@.len(),
            substitute_spec(body@, subs@) == substitute_spec(cur@, subs@.skip(k as int)),
        decreases n - k,
    {
        proof {
            assert(subs@[k as int] == (subs.pairs@[k as int].0@, subs.pairs@[k as int].1@));
            assert(subs@.skip(k as int)[0] == subs@[k as int]);
            assert(subs@.skip(k as int).skip(1) =~= subs@.skip(k as int + 1));
        }
        let token = wrap_token(subs.pairs[k].0.as_str());
        cur = replace_all(cur.as_str(), token.as_str(), subs.pairs[k].1.as_str());
        k = k + 1;
    }
    proof {
        assert(subs@.skip(n as int) =~= Seq::<(Seq<char>, Seq<char>)>::empty());
    }
    cur
}

/// Substituting with an empty mapping returns the body unchanged, whatever
/// the body holds.
pub proof fn lemma_substitute_empty(body: Seq<char>)
    ensures
        substitute_spec(body, Seq::empty()) == body,
{
}

proof fn lemma_replace_absent(s: Seq<char>, pat: Seq<char>, rep: Seq<char>)
    requires
        pat.len() > 0,
        !contains_seq(s, pat),
    ensures
        replace_all_spec(s, pat, rep) == s,
    decreases s.len(),
{
    if s.len() > 0 {
        assert(!occurs_at(s, pat, 0));
        assert forall|i: int| !occurs_at(s.skip(1), pat, i) by {
            if occurs_at(s.skip(1), pat, i) {
                assert(s.skip(1).subrange(i, i + pat.len() as int) =~= s.subrange(
                    i + 1,
                    i + 1 + pat.len() as int,
                ));
                assert(occurs_at(s, pat, i + 1));
            }
        }
        assert(!contains_seq(s.skip(1), pat));
        lemma_replace_absent(s.skip(1), pat, rep);
        assert(seq![s[0]] + s.skip(1) =~= s);
    }
}

/// A body that nowhere holds the two-character opener `{{` carries no
/// placeholder token, so substitution returns it unchanged for every
/// mapping.
pub proof fn lemma_substitute_no_tokens(body: Seq<char>, pairs: Seq<(Seq<char>, Seq<char>)>)
    requires
        !contains_seq(body, seq!['{', '{']),
    ensures
        substitute_spec(body, pairs) == body,
    decreases pairs.len(),
{
    if pairs.len() > 0 {
        let pat = wrap_spec(pairs[0].0);
        assert forall|i: int| !occurs_at(body, pat, i) by {
            if occurs_at(body, pat, i) {
                assert(body.subrange(i, i + pat.len() as int) == pat);
                assert(body.subrange(i, i + 2)[0] == body[i]);
                assert(body.subrange(i, i + 2)[1] == body[i + 1]);
                assert(body[i] == pat[0]);
                assert(body[i + 1] == pat[1]);
                assert(pat[0] == '{' && pat[1] == '{');
                assert(body.subrange(i, i + 2) =~= seq!['{', '{']);
                assert(occurs_at(body, seq!['{', '{'], i));
            }
        }
        assert(!contains_seq(body, pat));
        lemma_replace_absent(body, pat, pairs[0].1);
        lemma_substitute_no_tokens(body, pairs.skip(1));
    }
}

/// The configuration-key prefix that marks an entry as a substitution; the
/// rest of the key is the placeholder name.
pub open spec fn sub_prefix() -> Seq<char> {
    seq![
        'I',
        'N',
        'P',
        'U',
        'T',
        '_',
        'S',
        'U',
        'B',
        'S',
        'T',
        'I',
        'T',
        'U',
        'T',
        'I',
        'O',
        'N',
        '_',
    ]
}

/// The mapping after folding a configuration snapshot into `pairs`: each
/// entry whose key starts with the substitution prefix binds the rest of its
/// key to its value, in the snapshot's order; other entries contribute
/// nothing.
pub open spec fn collect_subs_spec(
    pairs: Seq<(Seq<char>, Seq<char>)>,
    entries: Seq<(Seq<char>, Seq<char>)>,
) -> Seq<(Seq<char>, Seq<char>)>
    decreases entries.len(),
{
    if entries.len() == 0 {
        pairs
    } else {
        let e = entries[0];
        let rest = entries.skip(1);
        if occurs_at(e.0, sub_prefix(), 0) {
            collect_subs_spec(spec_insert(pairs, e.0.skip(sub_prefix().len() as int), e.1), rest)
        } else {
            collect_subs_spec(pairs, rest)
        }
    }
}

/// Folds a configuration snapshot into `subs`: every entry whose key begins
/// with the substitution prefix binds the remainder of its key, the prefix
/// stripped once, to the entry's value.
pub fn substitutions(entries: &Vec<(String, String)>, subs: &mut SubstitutionMap)
    requires
        old(subs).wf(),
    ensures
        final(subs)@ == collect_subs_spec(old(subs)@, entries.deep_view()),
        final(subs).wf(),
{
    let prefix = "INPUT_SUBSTITUTION_";
    proof {
        reveal_strlit("INPUT_SUBSTITUTION_");
        assert(prefix@ =~= sub_prefix());
    }
    let plen = prefix.unicode_len();
    let n = entries.len();
    let mut k: usize = 0;
    let ghost all = entries.deep_view();
    proof {
        assert(all.skip(0) =~= all);
    }
    while k < n
        invariant
            k <= n,
            n == entries@.len(),
            all == entries.deep_view(),
            all.len() == n,
            prefix@ == sub_prefix(),
            plen == sub_prefix().len(),
            subs.wf(),
            collect_subs_spec(old(subs)@, all) == collect_subs_spec(subs@, all.skip(k as int)),
        decreases n - k,
    {
        let ghost e = all[k as int];
        proof {
            assert(e == (entries@[k as int].0@, entries@[k as int].1@));
            assert(all.skip(k as int)[0] == e);
            assert(all.skip(k as int).skip(1) =~= all.skip(k as int + 1));
        }
        let key = entries[k].0.as_str();
        if matches_at(key, 0, prefix) {
            let name = key.substring_char(plen, key.unicode_len()).to_owned();
            proof {
                assert(key@.subrange(plen as int, key@.len() as int) =~= key@.skip(plen as int));
            }
            let value = entries[k].1.clone();
            subs.insert(name, value);
        }
        k = k + 1;
    }
    proof {
        assert(all.skip(n as int) =~= Seq::<(Seq<char>, Seq<char>)>::empty());
    }
}

} // verus!
