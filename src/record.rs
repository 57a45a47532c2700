use vstd::prelude::*;

verus! {

/// A field name and its text, as seen by contracts.
pub type FieldView = (Seq<char>, Option<Seq<char>>);

pub open spec fn opt_view(o: Option<String>) -> Option<Seq<char>> {
    match o {
        Some(s) => Some(s@),
        None => None,
    }
}

/// One named field of an entry; the value is absent where the field holds
/// no text.
pub struct Field {
    pub key: String,
    pub value: Option<String>,
}

impl View for Field {
    type V = FieldView;

    open spec fn view(&self) -> FieldView {
        (self.key@, opt_view(self.value))
    }
}

pub open spec fn fields_view(fields: Seq<Field>) -> Seq<FieldView> {
    fields.map_values(|f: Field| f@)
}

/// A credential entry: its fields in the order the database gives them.
pub struct Entry {
    pub fields: Vec<Field>,
}

impl View for Entry {
    type V = Seq<FieldView>;

    open spec fn view(&self) -> Seq<FieldView> {
        fields_view(self.fields@)
    }
}

/// The secret record written to the store, as seen by contracts.
pub struct SecretView {
    pub title: Seq<char>,
    pub user: Option<Seq<char>>,
    pub pass: Option<Seq<char>>,
    pub extra: Seq<FieldView>,
}

/// The secret record written to the store for one entry.
pub struct KeepassSecret {
    pub title: String,
    pub user: Option<String>,
    pub pass: Option<String>,
    pub additional_properties: Vec<Field>,
}

impl View for KeepassSecret {
    type V = SecretView;

    open spec fn view(&self) -> SecretView {
        SecretView {
            title: self.title@,
            user: opt_view(self.user),
            pass: opt_view(self.pass),
            extra: fields_view(self.additional_properties@),
        }
    }
}

pub open spec fn title_key() -> Seq<char> {
    "Title"@
}

pub open spec fn username_key() -> Seq<char> {
    "UserName"@
}

pub open spec fn password_key() -> Seq<char> {
    "Password"@
}

/// The title that stands in for a missing one.
pub open spec fn default_title() -> Seq<char> {
    "undefined"@
}

/// The three field names that the record holds apart from the others.
pub open spec fn is_reserved(key: Seq<char>) -> bool {
    key == title_key() || key == username_key() || key == password_key()
}

/// The first field named `key`, if any: `Some(value)`.
pub open spec fn lookup(fields: Seq<FieldView>, key: Seq<char>) -> Option<Option<Seq<char>>>
    decreases fields.len(),
{
    if fields.len() == 0 {
        None
    } else if fields[0].0 == key {
        Some(fields[0].1)
    } else {
        lookup(fields.drop_first(), key)
    }
}

/// The text of the field named `key`; absent where there is no such field
/// or it holds no text.
pub open spec fn field_text(fields: Seq<FieldView>, key: Seq<char>) -> Option<Seq<char>> {
    match lookup(fields, key) {
        Some(Some(v)) => Some(v),
        _ => None,
    }
}

/// The entry's title where it has one that is not empty, else the default
/// one: the record's title and the last segment of the entry's path.
pub open spec fn record_title(fields: Seq<FieldView>) -> Seq<char> {
    match field_text(fields, title_key()) {
        Some(t) if t.len() > 0 => t,
        _ => default_title(),
    }
}

/// No two fields share a name.
pub open spec fn keys_unique(fields: Seq<FieldView>) -> bool {
    forall|i: int, j: int|
        0 <= i < j < fields.len() ==> #[trigger] fields[i].0 != #[trigger] fields[j].0
}

/// The fields other than the reserved three, in their order.
pub open spec fn extra_of(fields: Seq<FieldView>) -> Seq<FieldView>
    decreases fields.len(),
{
    if fields.len() == 0 {
        seq![]
    } else {
        let rest = extra_of(fields.drop_last());
        if is_reserved(fields.last().0) {
            rest
        } else {
            rest.push(fields.last())
        }
    }
}

/// The record that an entry with these fields becomes.
pub open spec fn record_of(fields: Seq<FieldView>) -> SecretView {
    SecretView {
        title: record_title(fields),
        user: field_text(fields, username_key()),
        pass: field_text(fields, password_key()),
        extra: extra_of(fields),
    }
}

/// A copy of an optional text.
pub fn clone_opt(o: &Option<String>) -> (r: Option<String>)
    ensures
        opt_view(r) == opt_view(*o),
{
    match o {
        Some(s) => Some(s.clone()),
        None => None,
    }
}

/// Whether `key` is one of the three field names the record holds apart.
pub fn is_reserved_key(key: &String) -> (r: bool)
    ensures
        r == is_reserved(key@),
{
    *key == String::from_str("Title") || *key == String::from_str("UserName") || *key
        == String::from_str("Password")
}

impl Entry {
    /// A well-formed entry names each of its fields once.
    pub open spec fn wf(&self) -> bool {
        keys_unique(self@)
    }

    /// The first field named `key`: `Some(value)`, or `None` where the entry
    /// has no such field.
    pub fn get(&self, key: &String) -> (r: Option<Option<String>>)
        ensures
            match r {
                Some(v) => lookup(self@, key@) == Some(opt_view(v)),
                None => lookup(self@, key@) is None,
            },
    {
        let n = self.fields.len();
        let mut i: usize = 0;
        assert(self@.subrange(0, n as int) =~= self@);
        while i < n
            invariant
                n == self.fields@.len(),
                i <= n,
                lookup(self@, key@) == lookup(self@.subrange(i as int, n as int), key@),
            decreases n - i,
        {
            assert(self@.subrange(i as int, n as int).drop_first() =~= self@.subrange(
                i + 1,
                n as int,
            ));
            if self.fields[i].key == *key {
                return Some(clone_opt(&self.fields[i].value));
            }
            i = i + 1;
        }
        None
    }

    /// The text of the field named `key`, where the entry has one.
    pub fn get_text(&self, key: &String) -> (r: Option<String>)
        ensures
            opt_view(r) == field_text(self@, key@),
    {
        match self.get(key) {
            Some(Some(v)) => Some(v),
            _ => None,
        }
    }

    /// The entry's title where it has one that is not empty, else the
    /// default one.
    pub fn title_or_undefined(&self) -> (r: String)
        ensures
            r@ == record_title(self@),
    {
        match self.get_text(&String::from_str("Title")) {
            Some(t) => if t.as_str().unicode_len() > 0 {
                t
            } else {
                String::from_str("undefined")
            },
            None => String::from_str("undefined"),
        }
    }
}

/// The secret record of an entry: its title (the default one where the entry
/// has none or an empty one), user name, password, and all its other fields;
/// the other fields keep their names unique where the entry's are.
pub fn build_record(entry: &Entry) -> (r: KeepassSecret)
    ensures
        r@ == record_of(entry@),
        entry.wf() ==> keys_unique(r@.extra),
{
    let title = entry.title_or_undefined();
    let user = entry.get_text(&String::from_str("UserName"));
    let pass = entry.get_text(&String::from_str("Password"));
    let mut extra: Vec<Field> = Vec::new();
    let n = entry.fields.len();
    let mut i: usize = 0;
    while i < n
        invariant
            n == entry.fields@.len(),
            i <= n,
            fields_view(extra@) == extra_of(entry@.subrange(0, i as int)),
        decreases n - i,
    {
        let f = &entry.fields[i];
        assert(entry@.subrange(0, i + 1).drop_last() =~= entry@.subrange(0, i as int));
        if !is_reserved_key(&f.key) {
            extra.push(Field { key: f.key.clone(), value: clone_opt(&f.value) });
            assert(fields_view(extra@) =~= extra_of(entry@.subrange(0, i as int)).push(f@));
        }
        i = i + 1;
    }
    assert(entry@.subrange(0, n as int) =~= entry@);
    let r = KeepassSecret { title, user, pass, additional_properties: extra };
    assert(r@.extra == extra_of(entry@));
    proof {
        if entry.wf() {
            lemma_extra_keys_unique(entry@);
        }
    }
    r
}

/// Where the entry names each field once, so does its record's extra
/// mapping.
pub proof fn lemma_extra_keys_unique(fields: Seq<FieldView>)
    requires
        keys_unique(fields),
    ensures
        keys_unique(extra_of(fields)),
    decreases fields.len(),
{
    if fields.len() > 0 {
        let init = fields.drop_last();
        let last = fields.last();
        assert(keys_unique(init)) by {
            assert forall|i: int, j: int| 0 <= i < j < init.len() implies #[trigger] init[i].0
                != #[trigger] init[j].0 by {
                assert(fields[i].0 != fields[j].0);
            }
        }
        lemma_extra_keys_unique(init);
        if !is_reserved(last.0) {
            lemma_extra_excludes_reserved(init);
            let e = extra_of(init);
            assert forall|i: int| 0 <= i < e.len() implies #[trigger] e[i].0 != last.0 by {
                if e[i].0 == last.0 {
                    let j = choose|j: int| 0 <= j < init.len() && #[trigger] init[j].0 == last.0;
                    assert(fields[j].0 == fields[fields.len() - 1].0);
                }
            }
            let x = extra_of(fields);
            assert(x == e.push(last));
            assert forall|i: int, j: int| 0 <= i < j < x.len() implies #[trigger] x[i].0
                != #[trigger] x[j].0 by {
                if j == x.len() - 1 {
                    assert(e[i].0 != last.0);
                } else {
                    assert(e[i].0 != e[j].0);
                }
            }
        }
    }
}

/// No field of a record's extra mapping is named "Title", "UserName" or
/// "Password", and its names are exactly the entry's other field names.
pub proof fn lemma_extra_excludes_reserved(fields: Seq<FieldView>)
    ensures
        forall|i: int|
            0 <= i < extra_of(fields).len() ==> !is_reserved(#[trigger] extra_of(fields)[i].0),
        forall|k: Seq<char>|
            (exists|i: int| 0 <= i < extra_of(fields).len() && #[trigger] extra_of(fields)[i].0 == k)
                <==> (!is_reserved(k) && exists|j: int|
                0 <= j < fields.len() && #[trigger] fields[j].0 == k),
    decreases fields.len(),
{
    if fields.len() > 0 {
        let init = fields.drop_last();
        lemma_extra_excludes_reserved(init);
        let e = extra_of(fields);
        assert forall|k: Seq<char>|
            (exists|i: int| 0 <= i < e.len() && #[trigger] e[i].0 == k) <==> (!is_reserved(k)
                && exists|j: int| 0 <= j < fields.len() && #[trigger] fields[j].0 == k) by {
            if exists|i: int| 0 <= i < e.len() && #[trigger] e[i].0 == k {
                let i = choose|i: int| 0 <= i < e.len() && #[trigger] e[i].0 == k;
                if i < extra_of(init).len() {
                    assert(extra_of(init)[i].0 == k);
                    let j = choose|j: int| 0 <= j < init.len() && #[trigger] init[j].0 == k;
                    assert(fields[j].0 == k);
                } else {
                    assert(fields[fields.len() - 1].0 == k);
                }
            }
            if !is_reserved(k) && exists|j: int| 0 <= j < fields.len() && #[trigger] fields[j].0
                == k {
                let j = choose|j: int| 0 <= j < fields.len() && #[trigger] fields[j].0 == k;
                if j < init.len() {
                    assert(init[j].0 == k);
                    let i = choose|i: int|
                        0 <= i < extra_of(init).len() && #[trigger] extra_of(init)[i].0 == k;
                    assert(e[i].0 == k);
                } else {
                    assert(e[e.len() - 1].0 == k);
                }
            }
        }
    }
}

/// An entry without a "Title" field gets the default title, which is not
/// empty.
pub proof fn lemma_missing_title_defaults(fields: Seq<FieldView>)
    requires
        lookup(fields, title_key()) is None,
    ensures
        record_of(fields).title == default_title(),
        record_of(fields).title.len() > 0,
{
    reveal_strlit("undefined");
}

} // verus!
