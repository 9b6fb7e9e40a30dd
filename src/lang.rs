//! Word lists: the built-in fallback, lookup of a bundled list by name,
//! and the words of a JSON word-list document.
use crate::text::chars_of;
use crate::words::texts;
use vstd::prelude::*;
use vstd::string::StringExecFns;

verus! {

/// The texts of a list of optional strings.
pub open spec fn item_texts(items: Seq<Option<String>>) -> Seq<Option<Seq<char>>> {
    items.map_values(|o: Option<String>| match o {
        Some(s) => Some(s@),
        None => None,
    })
}

/// The texts of an optional list of optional strings.
pub open spec fn found_items(r: Option<Vec<Option<String>>>) -> Option<Seq<Option<Seq<char>>>> {
    match r {
        Some(items) => Some(item_texts(items@)),
        None => None,
    }
}

/// What the JSON document `content` holds under its key `key`: `None`
/// where the document does not parse or that entry is not an array, else
/// each item of the array, as its text where it is a string.
pub uninterp spec fn json_array_items(content: Seq<char>, key: Seq<char>) -> Option<Seq<Option<Seq<char>>>>;

/// Relies on serde_json: `from_str` parses the document into a `Value`,
/// indexing by `key` and `as_array` select the array there, and `as_str`
/// gives the text of each string item. The result depends on `content`
/// and `key` alone.
#[verifier::external_body]
fn json_array_field(content: &str, key: &str) -> (r: Option<Vec<Option<String>>>)
    ensures
        found_items(r) == json_array_items(content@, key@),
{
    let json: serde_json::Value = serde_json::from_str(content).ok()?;
    let items = json[key].as_array()?;
    Some(items.iter().map(|v| v.as_str().map(|s| s.to_string())).collect())
}

/// The strings among `items`, in order.
pub open spec fn strings_of(items: Seq<Option<Seq<char>>>) -> Seq<Seq<char>>
    decreases items.len(),
{
    if items.len() == 0 {
        Seq::empty()
    } else {
        match items.last() {
            Some(s) => strings_of(items.drop_last()).push(s),
            None => strings_of(items.drop_last()),
        }
    }
}

/// Keeps the items that are strings, in order.
pub fn string_items(items: Vec<Option<String>>) -> (r: Vec<String>)
    ensures
        texts(r@) == strings_of(item_texts(items@)),
{
    let ghost all = item_texts(items@);
    let mut r: Vec<String> = Vec::new();
    let mut i: usize = 0;
    while i < items.len()
        invariant
            i <= items@.len(),
            all == item_texts(items@),
            texts(r@) == strings_of(all.take(i as int)),
        decreases items@.len() - i,
    {
        assert(all.take(i + 1).drop_last() =~= all.take(i as int));
        match &items[i] {
            Some(s) => {
                r.push(s.clone());
                assert(texts(r@) =~= strings_of(all.take(i as int)).push(s@));
            },
            None => {},
        }
        i = i + 1;
    }
    assert(all.take(i as int) =~= all);
    r
}

/// The key under which a word-list document holds its words.
pub open spec fn words_key() -> Seq<char> {
    seq!['w', 'o', 'r', 'd', 's']
}

/// The words of a JSON word-list document: the string items of its `words`
/// array; `None` where the document does not parse or has no such array.
pub fn words_from_json(content: &str) -> (r: Option<Vec<String>>)
    ensures
        r is None <==> json_array_items(content@, words_key()) is None,
        r matches Some(ws) ==> texts(ws@) == strings_of(json_array_items(content@, words_key())->0),
{
    let key = "words";
    proof {
        reveal_strlit("words");
        assert(key@ =~= words_key());
    }
    match json_array_field(content, key) {
        Some(items) => Some(string_items(items)),
        None => None,
    }
}

/// The words used when no word list can be loaded.
pub open spec fn fallback_list() -> Seq<Seq<char>> {
    seq![
        "hello"@,
        "world"@,
        "test"@,
        "example"@,
        "quick"@,
        "brown"@,
        "fox"@,
    ]
}

/// The built-in word list.
pub fn fallback_words() -> (r: Vec<String>)
    ensures
        texts(r@) == fallback_list(),
{
    let mut r: Vec<String> = Vec::new();
    r.push(String::from_str("hello"));
    r.push(String::from_str("world"));
    r.push(String::from_str("test"));
    r.push(String::from_str("example"));
    r.push(String::from_str("quick"));
    r.push(String::from_str("brown"));
    r.push(String::from_str("fox"));
    assert(texts(r@) =~= fallback_list());
    r
}

/// `ws` with every repeat of a word dropped, first occurrences kept in
/// order.
pub open spec fn dedup(ws: Seq<Seq<char>>) -> Seq<Seq<char>>
    decreases ws.len(),
{
    if ws.len() == 0 {
        Seq::empty()
    } else {
        let d = dedup(ws.drop_last());
        if d.contains(ws.last()) {
            d
        } else {
            d.push(ws.last())
        }
    }
}

/// No word occurs twice in `ws`.
pub open spec fn distinct(ws: Seq<Seq<char>>) -> bool {
    forall|i: int, j: int| 0 <= i < j < ws.len() ==> ws[i] != ws[j]
}

/// Dropping repeats leaves distinct words, and some word of any non-empty
/// list.
pub proof fn lemma_dedup(ws: Seq<Seq<char>>)
    ensures
        distinct(dedup(ws)),
        ws.len() > 0 ==> dedup(ws).len() > 0,
    decreases ws.len(),
{
    if ws.len() > 0 {
        lemma_dedup(ws.drop_last());
        let d = dedup(ws.drop_last());
        if !d.contains(ws.last()) {
            let e = d.push(ws.last());
            assert forall|i: int, j: int| 0 <= i < j < e.len() implies e[i] != e[j] by {
                if j == d.len() {
                    assert(e[i] == d[i]);
                }
            }
        }
    }
}

/// The built-in list holds no word twice.
pub proof fn lemma_fallback_distinct()
    ensures
        distinct(fallback_list()),
        fallback_list().len() == 7,
{
    reveal_strlit("hello");
    reveal_strlit("world");
    reveal_strlit("test");
    reveal_strlit("example");
    reveal_strlit("quick");
    reveal_strlit("brown");
    reveal_strlit("fox");
    let f = fallback_list();
    assert forall|i: int, j: int| 0 <= i < j < f.len() implies f[i] != f[j] by {
        assert(f[i][0] != f[j][0] || f[i].len() != f[j].len() || f[i][1] != f[j][1]);
    }
}

/// The words to use: the loaded ones, each once, where any were loaded;
/// the built-in list where loading failed or gave no words. Never empty,
/// and no word occurs twice.
pub fn words_or_fallback(loaded: Option<Vec<String>>) -> (r: Vec<String>)
    ensures
        r@.len() > 0,
        distinct(texts(r@)),
        texts(r@) == if loaded is Some && loaded->0@.len() > 0 {
            dedup(texts(loaded->0@))
        } else {
            fallback_list()
        },
{
    proof {
        lemma_fallback_distinct();
    }
    let ws = match loaded {
        Some(ws) => ws,
        None => return fallback_words(),
    };
    if ws.len() == 0 {
        return fallback_words();
    }
    let ghost all = texts(ws@);
    let mut r: Vec<String> = Vec::new();
    let mut i: usize = 0;
    assert(all.take(0) =~= Seq::<Seq<char>>::empty());
    assert(texts(r@) =~= Seq::<Seq<char>>::empty());
    while i < ws.len()
        invariant
            i <= ws@.len(),
            all == texts(ws@),
            texts(r@) == dedup(all.take(i as int)),
        decreases ws@.len() - i,
    {
        let ghost before = r@;
        let w = ws[i].clone();
        let ghost wv = w@;
        assert(all.take(i + 1).drop_last() =~= all.take(i as int));
        assert(all.take(i + 1).last() == wv);
        add_language(&mut r, w);
        proof {
            if texts(before).contains(wv) {
                let k = choose|k: int| 0 <= k < texts(before).len() && texts(before)[k] == wv;
                assert(before[k]@ == wv);
                assert(texts(r@) == texts(before));
            } else {
                assert forall|k: int| 0 <= k < before.len() implies (#[trigger] before[k])@ != wv by {
                    assert(texts(before)[k] == before[k]@);
                }
                assert(texts(r@) =~= texts(before).push(wv));
            }
        }
        i = i + 1;
    }
    assert(all.take(i as int) =~= all);
    proof {
        lemma_dedup(all);
    }
    r
}

/// Whether two strings hold the same characters.
pub fn same_text(a: &str, b: &str) -> (r: bool)
    ensures
        r == (a@ == b@),
{
    let x = chars_of(a);
    let y = chars_of(b);
    if x.len() != y.len() {
        return false;
    }
    let mut i: usize = 0;
    while i < x.len()
        invariant
            x@ == a@,
            y@ == b@,
            x@.len() == y@.len(),
            i <= x@.len(),
            forall|k: int| 0 <= k < i ==> x@[k] == y@[k],
        decreases x@.len() - i,
    {
        if x[i] != y[i] {
            assert(x@[i as int] != y@[i as int]);
            return false;
        }
        i = i + 1;
    }
    assert(x@ =~= y@);
    true
}

/// The content bundled for language `lang` in `files`, a list of (name,
/// content) pairs: that of the first entry of that name.
pub fn get_embedded_language_content<'a>(files: &[(&'a str, &'a str)], lang: &str) -> (r: Option<
    &'a str,
>)
    ensures
        r is None <==> (forall|i: int| 0 <= i < files@.len() ==> (#[trigger] files@[i]).0@ != lang@),
        r matches Some(c) ==> exists|i: int|
            0 <= i < files@.len() && (#[trigger] files@[i]).0@ == lang@ && c == files@[i].1 && forall|k: int|
                0 <= k < i ==> (#[trigger] files@[k]).0@ != lang@,
{
    let mut i: usize = 0;
    while i < files.len()
        invariant
            i <= files@.len(),
            forall|k: int| 0 <= k < i ==> (#[trigger] files@[k]).0@ != lang@,
        decreases files@.len() - i,
    {
        let (name, content) = files[i];
        if same_text(name, lang) {
            return Some(content);
        }
        i = i + 1;
    }
    None
}

/// Adds `name` to the list of language names unless it is there already.
pub fn add_language(langs: &mut Vec<String>, name: String)
    ensures
        (exists|i: int| 0 <= i < old(langs)@.len() && (#[trigger] old(langs)@[i])@ == name@)
            ==> final(langs)@ == old(langs)@,
        (forall|i: int| 0 <= i < old(langs)@.len() ==> (#[trigger] old(langs)@[i])@ != name@)
            ==> final(langs)@ == old(langs)@.push(name),
{
    let mut i: usize = 0;
    while i < langs.len()
        invariant
            i <= langs@.len(),
            langs@ == old(langs)@,
            forall|k: int| 0 <= k < i ==> (#[trigger] langs@[k])@ != name@,
        decreases langs@.len() - i,
    {
        if same_text(langs[i].as_str(), name.as_str()) {
            return;
        }
        i = i + 1;
    }
    langs.push(name);
}

} // verus!
