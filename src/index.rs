use vstd::prelude::*;

use crate::position::Pos;

verus! {

/// A place in an indexed file: the file's name and a position in it.
pub struct Location {
    pub file: String,
    pub pos: Pos,
}

/// A location as the index stores it: a handle of the interned file name.
pub(crate) struct LocationRef {
    pub(crate) file: usize,
    pub(crate) pos: Pos,
}

impl LocationRef {
    /// The location this reference stands for.
    fn location(&self, interner: &Interner) -> (r: Location)
        requires
            self.file < interner.names@.len(),
        ensures
            r.spec_loc() == (interner.name(self.file), self.pos),
    {
        Location { file: interner.names[self.file].clone(), pos: self.pos }
    }
}

/// What a location is: the file's name and the position.
pub type LocSpec = (Seq<char>, Pos);

/// The contents of an index: each token that was added, with its locations in
/// the order in which they were added.
pub type IndexModel = Map<Seq<char>, Seq<LocSpec>>;

impl Location {
    pub open spec fn spec_loc(&self) -> LocSpec {
        (self.file@, self.pos)
    }

    pub fn new(file: &str, pos: Pos) -> (r: Location)
        ensures
            r.file@ == file@,
            r.pos == pos,
    {
        Location { file: file.to_owned(), pos }
    }

    /// The stored form of this location, its file name interned.
    fn location_ref(&self, interner: &mut Interner) -> (r: LocationRef)
        requires
            old(interner).wf(),
        ensures
            final(interner).wf(),
            r.file < final(interner).names@.len(),
            final(interner).name(r.file) == self.file@,
            r.pos == self.pos,
            old(interner).names@.len() <= final(interner).names@.len(),
            final(interner).names@.len() <= old(interner).names@.len() + 1,
            final(interner).names@.subrange(0, old(interner).names@.len() as int) == old(
                interner,
            ).names@,
            (exists|i: int|
                0 <= i < old(interner).names@.len() && old(interner).names@[i]@ == self.file@)
                ==> final(interner).names@ == old(interner).names@,
    {
        LocationRef { file: interner.get_ident(self.file.as_str()), pos: self.pos }
    }

    /// The location as `file:line:column`.
    pub fn to_string(&self) -> (r: String)
        ensures
            r@ == location_text(self.file@, self.pos),
    {
        format_location(self.file.as_str(), self.pos.line, self.pos.column)
    }
}

/// The decimal digits of a number, most significant first.
pub open spec fn decimal(n: nat) -> Seq<char>
    decreases n,
{
    if n < 10 {
        seq![digit_char(n)]
    } else {
        decimal(n / 10).push(digit_char(n % 10))
    }
}

pub open spec fn digit_char(d: nat) -> char {
    if d == 0 {
        '0'
    } else if d == 1 {
        '1'
    } else if d == 2 {
        '2'
    } else if d == 3 {
        '3'
    } else if d == 4 {
        '4'
    } else if d == 5 {
        '5'
    } else if d == 6 {
        '6'
    } else if d == 7 {
        '7'
    } else if d == 8 {
        '8'
    } else {
        '9'
    }
}

/// How a location is shown: `file:line:column`.
pub open spec fn location_text(file: Seq<char>, pos: Pos) -> Seq<char> {
    file + seq![':'] + decimal(pos.line as nat) + seq![':'] + decimal(pos.column as nat)
}

/// Relies on `format!` and the `Display` of `str` and `usize`: the text as it
/// is, and a number in decimal digits without sign or padding.
#[verifier::external_body]
fn format_location(file: &str, line: usize, column: usize) -> (r: String)
    ensures
        r@ == file@ + seq![':'] + decimal(line as nat) + seq![':'] + decimal(column as nat),
{
    format!("{}:{}:{}", file, line, column)
}

pub open spec fn locs_view(ls: Seq<Location>) -> Seq<LocSpec> {
    ls.map_values(|l: Location| l.spec_loc())
}

pub open spec fn items_view(items: Seq<(String, Location)>) -> Seq<(Seq<char>, LocSpec)> {
    items.map_values(|p: (String, Location)| (p.0@, p.1.spec_loc()))
}

/// The locations of a token, empty for a token never added.
pub open spec fn lookup(m: IndexModel, token: Seq<char>) -> Seq<LocSpec> {
    if m.contains_key(token) {
        m[token]
    } else {
        Seq::empty()
    }
}

/// The index after one more occurrence of a token.
pub open spec fn with_item(m: IndexModel, token: Seq<char>, loc: LocSpec) -> IndexModel {
    m.insert(token, lookup(m, token).push(loc))
}

/// The index after occurrences are added one by one, in order.
pub open spec fn with_items(m: IndexModel, items: Seq<(Seq<char>, LocSpec)>) -> IndexModel
    decreases items.len(),
{
    if items.len() == 0 {
        m
    } else {
        let last = items.last();
        with_item(with_items(m, items.drop_last()), last.0, last.1)
    }
}

/// The locations that stored references stand for, given the interned names.
pub(crate) open spec fn resolve_refs(names: Seq<String>, refs: Seq<LocationRef>) -> Seq<LocSpec> {
    refs.map_values(|r: LocationRef| (names[r.file as int]@, r.pos))
}

/// Interning more names leaves what earlier references stand for unchanged.
proof fn lemma_resolve_prefix(names: Seq<String>, more: Seq<String>, refs: Seq<LocationRef>)
    requires
        names.len() <= more.len(),
        more.subrange(0, names.len() as int) == names,
        forall|k: int| 0 <= k < refs.len() ==> (#[trigger] refs[k]).file < names.len(),
    ensures
        resolve_refs(more, refs) == resolve_refs(names, refs),
{
    assert forall|k: int| 0 <= k < refs.len() implies #[trigger] resolve_refs(more, refs)[k]
        == resolve_refs(names, refs)[k] by {
        assert(more[refs[k].file as int] == more.subrange(0, names.len() as int)[refs[k].file as int]);
    }
    assert(resolve_refs(more, refs) =~= resolve_refs(names, refs));
}

/// The locations at which a token occurs among added items, in order.
pub open spec fn occurrences(items: Seq<(Seq<char>, LocSpec)>, token: Seq<char>) -> Seq<LocSpec>
    decreases items.len(),
{
    if items.len() == 0 {
        Seq::empty()
    } else {
        let prev = occurrences(items.drop_last(), token);
        if items.last().0 == token {
            prev.push(items.last().1)
        } else {
            prev
        }
    }
}

/// In an index built from nothing by adding items in order, a token's lookup
/// gives exactly the locations at which it was added, in that order; a token
/// never added gives nothing.
pub proof fn lemma_lookup_built(items: Seq<(Seq<char>, LocSpec)>, token: Seq<char>)
    ensures
        lookup(with_items(Map::empty(), items), token) == occurrences(items, token),
        (forall|i: int| 0 <= i < items.len() ==> (#[trigger] items[i]).0 != token) ==> lookup(
            with_items(Map::empty(), items),
            token,
        ) == Seq::<LocSpec>::empty(),
    decreases items.len(),
{
    if items.len() > 0 {
        let d = items.drop_last();
        lemma_lookup_built(d, token);
        if forall|i: int| 0 <= i < items.len() ==> (#[trigger] items[i]).0 != token {
            assert forall|i: int| 0 <= i < d.len() implies (#[trigger] d[i]).0 != token by {
                assert(d[i] == items[i]);
            }
            assert(items.last() == items[items.len() - 1]);
        }
    }
}

/// Deduplicates file names: each distinct name is stored once and handed out
/// as a handle.
pub(crate) struct Interner {
    pub(crate) names: Vec<String>,
}

impl Interner {
    pub(crate) open spec fn wf(&self) -> bool {
        forall|i: int, j: int|
            0 <= i < j < self.names@.len() ==> #[trigger] self.names@[i]@ != #[trigger] self.names@[j]@
    }

    pub(crate) open spec fn name(&self, h: usize) -> Seq<char> {
        self.names@[h as int]@
    }

    /// The handle of a name, stored first if it is new.
    fn get_ident(&mut self, item: &str) -> (r: usize)
        requires
            old(self).wf(),
        ensures
            final(self).wf(),
            r < final(self).names@.len(),
            final(self).name(r) == item@,
            old(self).names@.len() <= final(self).names@.len(),
            final(self).names@.len() <= old(self).names@.len() + 1,
            final(self).names@.subrange(0, old(self).names@.len() as int) == old(self).names@,
            (exists|i: int| 0 <= i < old(self).names@.len() && old(self).names@[i]@ == item@)
                ==> final(self).names@ == old(self).names@,
    {
        let key = item.to_owned();
        let mut j: usize = 0;
        while j < self.names.len()
            invariant
                self.wf(),
                self.names@ == old(self).names@,
                key@ == item@,
                0 <= j <= self.names@.len(),
                forall|k: int| 0 <= k < j ==> #[trigger] self.names@[k]@ != key@,
            decreases self.names@.len() - j,
        {
            if self.names[j] == key {
                proof {
                    assert(self.names@.subrange(0, self.names@.len() as int) =~= self.names@);
                }
                return j;
            }
            j = j + 1;
        }
        let h = self.names.len();
        self.names.push(key);
        proof {
            assert(self.names@.subrange(0, h as int) =~= old(self).names@);
            assert forall|i: int, k: int| 0 <= i < k < self.names@.len() implies
                #[trigger] self.names@[i]@ != #[trigger] self.names@[k]@ by {
                if k == h as int {
                    assert(self.names@[i] == old(self).names@[i]);
                }
            }
        }
        h
    }
}

/// An inverted index: for each token, every location at which it was added.
pub struct ReverseIndex {
    pub(crate) interner: Interner,
    pub(crate) tokens: Vec<String>,
    pub(crate) entries: Vec<Vec<LocationRef>>,
}

impl ReverseIndex {
    pub(crate) open spec fn resolve(&self, refs: Seq<LocationRef>) -> Seq<LocSpec> {
        resolve_refs(self.interner.names@, refs)
    }

    pub(crate) open spec fn slot_of(&self, token: Seq<char>) -> int {
        choose|i: int| 0 <= i < self.tokens@.len() && self.tokens@[i]@ == token
    }

    pub(crate) open spec fn has_token(&self, token: Seq<char>) -> bool {
        exists|i: int| 0 <= i < self.tokens@.len() && self.tokens@[i]@ == token
    }

    /// The index's contents as a map from token to its locations.
    pub closed spec fn view(&self) -> IndexModel {
        Map::new(
            |t: Seq<char>| self.has_token(t),
            |t: Seq<char>| self.resolve(self.entries@[self.slot_of(t)]@),
        )
    }

    /// Tokens are stored once each, and every stored handle names a file.
    pub closed spec fn wf(&self) -> bool {
        &&& self.interner.wf()
        &&& self.tokens@.len() == self.entries@.len()
        &&& forall|i: int, j: int|
            0 <= i < j < self.tokens@.len() ==> #[trigger] self.tokens@[i]@ != #[trigger] self.tokens@[j]@
        &&& forall|i: int, k: int|
            0 <= i < self.entries@.len() && 0 <= k < self.entries@[i]@.len()
                ==> (#[trigger] self.entries@[i]@[k]).file < self.interner.names@.len()
    }

    proof fn lemma_slot(&self, i: int)
        requires
            self.wf(),
            0 <= i < self.tokens@.len(),
        ensures
            self.has_token(self.tokens@[i]@),
            self.slot_of(self.tokens@[i]@) == i,
    {
        let k = self.slot_of(self.tokens@[i]@);
        assert(0 <= k < self.tokens@.len() && self.tokens@[k]@ == self.tokens@[i]@);
        if k < i {
            assert(self.tokens@[k]@ != self.tokens@[i]@);
        } else if i < k {
            assert(self.tokens@[i]@ != self.tokens@[k]@);
        }
    }

    /// The slot that holds a token, if any.
    fn find_token(&self, key: &String) -> (r: Option<usize>)
        requires
            self.wf(),
        ensures
            r matches Some(j) ==> j < self.tokens@.len() && self.tokens@[j as int]@ == key@,
            r is None ==> !self.has_token(key@),
    {
        let mut j: usize = 0;
        while j < self.tokens.len()
            invariant
                0 <= j <= self.tokens@.len(),
                forall|k: int| 0 <= k < j ==> #[trigger] self.tokens@[k]@ != key@,
            decreases self.tokens@.len() - j,
        {
            if self.tokens[j] == *key {
                return Some(j);
            }
            j = j + 1;
        }
        None
    }

    /// Adds one occurrence of a token. Nothing is deduplicated: adding the same
    /// occurrence twice stores it twice.
    pub fn add_item(&mut self, item: &str, location: Location)
        requires
            old(self).wf(),
        ensures
            final(self).wf(),
            final(self)@ == with_item(old(self)@, item@, location.spec_loc()),
    {
        let ghost old_names = self.interner.names@;
        let r = location.location_ref(&mut self.interner);
        let key = item.to_owned();
        let ghost old_entries = self.entries@;
        proof {
            assert forall|i: int| 0 <= i < old_entries.len() implies
                resolve_refs(self.interner.names@, #[trigger] old_entries[i]@)
                    == resolve_refs(old_names, old_entries[i]@) by {
                lemma_resolve_prefix(old_names, self.interner.names@, old_entries[i]@);
            }
        }
        let ghost loc = location.spec_loc();
        match self.find_token(&key) {
            Some(j) => {
                let mut e = self.entries.remove(j);
                e.push(r);
                self.entries.insert(j, e);
                proof {
                    assert(self.entries@ =~= old_entries.update(j as int, e));
                    assert(resolve_refs(self.interner.names@, e@) =~= resolve_refs(
                        self.interner.names@,
                        old_entries[j as int]@,
                    ).push(loc));
                    assert forall|i: int, k: int|
                        0 <= i < self.entries@.len() && 0 <= k < self.entries@[i]@.len() implies
                        (#[trigger] self.entries@[i]@[k]).file < self.interner.names@.len() by {
                        if i != j {
                            assert(self.entries@[i] == old_entries[i]);
                        } else if k < old_entries[i]@.len() {
                            assert(self.entries@[i]@[k] == old_entries[i]@[k]);
                        }
                    }
                    old(self).lemma_slot(j as int);
                    assert forall|t: Seq<char>| #[trigger]
                        self.has_token(t) == old(self).has_token(t) by {}
                    assert forall|t: Seq<char>| self.has_token(t) implies #[trigger] self@[t]
                        == with_item(old(self)@, item@, loc)[t] by {
                        let i = self.slot_of(t);
                        self.lemma_slot(i);
                        old(self).lemma_slot(i);
                    }
                    assert(self@ =~= with_item(old(self)@, item@, loc));
                }
            },
            None => {
                self.tokens.push(key);
                let mut e: Vec<LocationRef> = Vec::new();
                e.push(r);
                self.entries.push(e);
                proof {
                    let n = old_entries.len() as int;
                    assert(resolve_refs(self.interner.names@, e@) =~= seq![loc]);
                    assert forall|i: int, k: int|
                        0 <= i < self.tokens@.len() && 0 <= k < self.tokens@.len() && i < k implies
                        #[trigger] self.tokens@[i]@ != #[trigger] self.tokens@[k]@ by {
                        if k == n {
                            assert(self.tokens@[i] == old(self).tokens@[i]);
                        }
                    }
                    assert forall|i: int, k: int|
                        0 <= i < self.entries@.len() && 0 <= k < self.entries@[i]@.len() implies
                        (#[trigger] self.entries@[i]@[k]).file < self.interner.names@.len() by {
                        if i < n {
                            assert(self.entries@[i] == old_entries[i]);
                        }
                    }
                    self.lemma_slot(n);
                    assert forall|t: Seq<char>| #[trigger]
                        self.has_token(t) == (old(self).has_token(t) || t == item@) by {
                        if old(self).has_token(t) {
                            let i = old(self).slot_of(t);
                            assert(self.tokens@[i] == old(self).tokens@[i]);
                        }
                        if self.has_token(t) && t != item@ {
                            let i = self.slot_of(t);
                            assert(i != n);
                            assert(self.tokens@[i] == old(self).tokens@[i]);
                        }
                    }
                    assert forall|t: Seq<char>| self.has_token(t) implies #[trigger] self@[t]
                        == with_item(old(self)@, item@, loc)[t] by {
                        let i = self.slot_of(t);
                        self.lemma_slot(i);
                        if t != item@ {
                            assert(i != n);
                            assert(self.tokens@[i] == old(self).tokens@[i]);
                            old(self).lemma_slot(i);
                            assert(self.entries@[i] == old_entries[i]);
                        }
                    }
                    assert(self@ =~= with_item(old(self)@, item@, loc));
                }
            },
        }
    }

    /// Adds occurrences one by one, in order.
    pub fn add_items(&mut self, items: &Vec<(String, Location)>)
        requires
            old(self).wf(),
        ensures
            final(self).wf(),
            final(self)@ == with_items(old(self)@, items_view(items@)),
    {
        let ghost iv = items_view(items@);
        let mut i: usize = 0;
        while i < items.len()
            invariant
                self.wf(),
                iv == items_view(items@),
                0 <= i <= items@.len(),
                self@ == with_items(old(self)@, iv.subrange(0, i as int)),
            decreases items@.len() - i,
        {
            let item = &items[i];
            self.add_item(item.0.as_str(), Location::new(item.1.file.as_str(), item.1.pos));
            proof {
                let next = iv.subrange(0, i + 1);
                assert(next.drop_last() =~= iv.subrange(0, i as int));
                assert(next.last() == iv[i as int]);
            }
            i = i + 1;
        }
        proof {
            assert(iv.subrange(0, items@.len() as int) =~= iv);
        }
    }

    /// The locations of a token in the order they were added; empty for a token
    /// never added.
    pub fn query(&self, item: &str) -> (r: Vec<Location>)
        requires
            self.wf(),
        ensures
            locs_view(r@) == lookup(self@, item@),
    {
        let key = item.to_owned();
        let mut out: Vec<Location> = Vec::new();
        match self.find_token(&key) {
            None => {
                proof {
                    assert(!self@.contains_key(item@));
                    assert(locs_view(out@) =~= Seq::<LocSpec>::empty());
                }
            },
            Some(j) => {
                let refs = &self.entries[j];
                proof {
                    self.lemma_slot(j as int);
                }
                let ghost want = self.resolve(refs@);
                let mut k: usize = 0;
                while k < refs.len()
                    invariant
                        self.wf(),
                        j < self.entries@.len(),
                        refs == self.entries@[j as int],
                        want == self.resolve(refs@),
                        0 <= k <= refs@.len(),
                        locs_view(out@) == want.subrange(0, k as int),
                    decreases refs@.len() - k,
                {
                    let lr = &refs[k];
                    let loc = lr.location(&self.interner);
                    let ghost prev = out@;
                    let ghost lv = loc.spec_loc();
                    proof {
                        assert(want[k as int] == lv);
                    }
                    out.push(loc);
                    proof {
                        assert(locs_view(out@) =~= locs_view(prev).push(lv));
                        assert(locs_view(out@) =~= want.subrange(0, k + 1));
                    }
                    k = k + 1;
                }
                proof {
                    assert(want.subrange(0, refs@.len() as int) =~= want);
                }
            },
        }
        out
    }

    /// An empty index.
    pub fn new() -> (r: ReverseIndex)
        ensures
            r.wf(),
            r@ == Map::<Seq<char>, Seq<LocSpec>>::empty(),
    {
        let r = ReverseIndex {
            interner: Interner { names: Vec::new() },
            tokens: Vec::new(),
            entries: Vec::new(),
        };
        proof {
            assert(r@ =~= Map::<Seq<char>, Seq<LocSpec>>::empty());
        }
        r
    }
}

impl Default for ReverseIndex {
    fn default() -> (r: ReverseIndex)
        ensures
            r.wf(),
            r@ == Map::<Seq<char>, Seq<LocSpec>>::empty(),
    {
        ReverseIndex::new()
    }
}

} // verus!
