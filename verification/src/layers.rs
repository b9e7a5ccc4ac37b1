//! Configuration files that are layered on top of each other: mappings merge
//! key by key, everything else is replaced.

use crate::config::{acceptable, lemma_acceptable, AppConfig, ConfigError, Fault};
use crate::float32::F32;
use crate::text::string_views;
use crate::yaml::{parse_yaml, yaml_doc};
use serde_yaml::Value;
use vstd::prelude::*;
use vstd::string::*;

verus! {

/// What a value is below its tags: nothing, a mapping, or neither.
#[derive(Clone, Copy, Debug)]
pub struct Shape {
    pub null: bool,
    pub mapping: bool,
}

/// A key of a mapping: a name, or the text of a key that is no name.
#[derive(Debug)]
pub enum Key {
    Name(String),
    Other(String),
}

/// A document as far as merging looks into it. What is replaced as a whole (a
/// scalar, a list, or anything with a tag) is a value of `S` together with its
/// shape below the tags.
#[derive(Debug)]
pub enum Layer<S> {
    Mapping(Vec<(Key, Layer<S>)>),
    Whole(S, Shape),
}

/// A key as a mathematical value.
pub enum KeyView {
    Name(Seq<char>),
    Other(Seq<char>),
}

impl View for Key {
    type V = KeyView;

    open spec fn view(&self) -> KeyView {
        match *self {
            Key::Name(name) => KeyView::Name(name@),
            Key::Other(text) => KeyView::Other(text@),
        }
    }
}

/// A document as a mathematical value.
pub enum Doc<S> {
    Mapping(Seq<(KeyView, Doc<S>)>),
    Whole(S, Shape),
}

impl<S> Layer<S> {
    pub open spec fn doc(self) -> Doc<S>
        decreases self,
    {
        match self {
            Layer::Mapping(entries) => Doc::Mapping(docs(entries@)),
            Layer::Whole(value, shape) => Doc::Whole(value, shape),
        }
    }
}

/// The entries of a mapping as mathematical values.
pub open spec fn docs<S>(entries: Seq<(Key, Layer<S>)>) -> Seq<(KeyView, Doc<S>)>
    decreases entries,
{
    if entries.len() == 0 {
        Seq::empty()
    } else {
        docs(entries.drop_last()).push((entries.last().0@, entries.last().1.doc()))
    }
}

impl<S> Doc<S> {
    /// Whether this is nothing: what an empty file holds.
    pub open spec fn is_null(self) -> bool {
        self matches Doc::Whole(_, shape) && shape.null
    }

    /// Whether this is a mapping, looking through tags.
    pub open spec fn is_mapping(self) -> bool {
        self is Mapping || (self matches Doc::Whole(_, shape) && shape.mapping)
    }

    /// The value of a key.
    pub open spec fn get(self, key: KeyView) -> Option<Doc<S>> {
        match self {
            Doc::Mapping(entries) => if exists|i: int| first_at(entries, key, i) {
                Some(entries[first_index(entries, key)].1)
            } else {
                None
            },
            _ => None,
        }
    }
}

/// Whether the `i`-th entry has this key.
pub open spec fn entry_at<S>(entries: Seq<(KeyView, Doc<S>)>, key: KeyView, i: int) -> bool {
    0 <= i < entries.len() && entries[i].0 == key
}

/// Whether the `i`-th entry is the first one with this key.
pub open spec fn first_at<S>(entries: Seq<(KeyView, Doc<S>)>, key: KeyView, i: int) -> bool {
    entry_at(entries, key, i) && forall|j: int| 0 <= j < i ==> !entry_at(entries, key, j)
}

/// Where a key that occurs is found first.
pub open spec fn first_index<S>(entries: Seq<(KeyView, Doc<S>)>, key: KeyView) -> int {
    choose|i: int| first_at(entries, key, i)
}

/// Whether a key occurs at most once.
pub open spec fn once<S>(entries: Seq<(KeyView, Doc<S>)>, key: KeyView) -> bool {
    forall|i: int, j: int| entry_at(entries, key, i) && entry_at(entries, key, j) ==> i == j
}

/// Whether no name occurs twice in a mapping, at any depth.
pub open spec fn names_once<S>(doc: Doc<S>) -> bool
    decreases doc,
{
    match doc {
        Doc::Mapping(entries) => {
            &&& forall|name: Seq<char>| #[trigger] once(entries, KeyView::Name(name))
            &&& forall|i: int| 0 <= i < entries.len() ==> names_once((#[trigger] entries[i]).1)
        },
        _ => true,
    }
}

/// Whether no key occurs twice in a mapping, at any depth.
pub open spec fn keys_once<S>(doc: Doc<S>) -> bool
    decreases doc,
{
    match doc {
        Doc::Mapping(entries) => {
            &&& forall|key: KeyView| #[trigger] once(entries, key)
            &&& forall|i: int| 0 <= i < entries.len() ==> keys_once((#[trigger] entries[i]).1)
        },
        _ => true,
    }
}

/// `right` on top of `left`: mappings merge key by key, anything else replaces
/// what was there, and nothing changes nothing.
pub open spec fn merged<S>(left: Doc<S>, right: Doc<S>) -> Doc<S>
    decreases right,
{
    if right.is_null() {
        left
    } else if left is Mapping && right is Mapping {
        Doc::Mapping(merged_entries(left->Mapping_0, right->Mapping_0))
    } else {
        right
    }
}

/// The entries of a mapping after those of another one were put on top.
pub open spec fn merged_entries<S>(
    left: Seq<(KeyView, Doc<S>)>,
    right: Seq<(KeyView, Doc<S>)>,
) -> Seq<(KeyView, Doc<S>)>
    decreases right,
{
    if right.len() == 0 {
        left
    } else {
        let sofar = merged_entries(left, right.drop_last());
        let (key, value) = right.last();
        if exists|i: int| first_at(sofar, key, i) {
            let i = first_index(sofar, key);
            sofar.update(i, (sofar[i].0, merged(sofar[i].1, value)))
        } else {
            sofar.push((key, value))
        }
    }
}

/// All documents on top of each other, the first one at the bottom, starting
/// from an empty mapping.
pub open spec fn layered<S>(layers: Seq<Doc<S>>) -> Doc<S>
    decreases layers.len(),
{
    if layers.len() == 0 {
        Doc::Mapping(Seq::empty())
    } else {
        merged(layered(layers.drop_last()), layers.last())
    }
}

proof fn lemma_docs<S>(entries: Seq<(Key, Layer<S>)>)
    ensures
        docs(entries).len() == entries.len(),
        forall|i: int|
            0 <= i < entries.len() ==> #[trigger] docs(entries)[i] == (entries[i].0@, entries[i].1.doc()),
    decreases entries.len(),
{
    if entries.len() > 0 {
        lemma_docs(entries.drop_last());
        assert forall|i: int| 0 <= i < entries.len() implies #[trigger] docs(entries)[i] == (
            entries[i].0@,
            entries[i].1.doc(),
        ) by {
            if i < entries.len() - 1 {
                assert(entries.drop_last()[i] == entries[i]);
            }
        }
    }
}

fn same_key(a: &Key, b: &Key) -> (r: bool)
    ensures
        r == (a@ == b@),
{
    match (a, b) {
        (Key::Name(x), Key::Name(y)) => *x == *y,
        (Key::Other(x), Key::Other(y)) => *x == *y,
        _ => false,
    }
}

impl<S> Layer<S> {
    /// Whether this is nothing: what an empty file holds.
    pub fn is_null(&self) -> (r: bool)
        ensures
            r == self.doc().is_null(),
    {
        match self {
            Layer::Mapping(_) => false,
            Layer::Whole(_, shape) => shape.null,
        }
    }

    /// Whether this is a mapping, looking through tags.
    pub fn is_mapping(&self) -> (r: bool)
        ensures
            r == self.doc().is_mapping(),
    {
        match self {
            Layer::Mapping(_) => true,
            Layer::Whole(_, shape) => shape.mapping,
        }
    }
}

fn find_key<S>(entries: &Vec<(Key, Layer<S>)>, key: &Key) -> (r: Option<usize>)
    ensures
        match r {
            Some(i) => first_at(docs(entries@), key@, i as int),
            None => forall|i: int| !entry_at(docs(entries@), key@, i),
        },
{
    proof {
        lemma_docs(entries@);
    }
    let mut i: usize = 0;
    while i < entries.len()
        invariant
            i <= entries@.len(),
            docs(entries@).len() == entries@.len(),
            forall|j: int|
                0 <= j < entries@.len() ==> #[trigger] docs(entries@)[j] == (entries@[j].0@, entries@[j].1.doc()),
            forall|j: int| 0 <= j < i ==> !entry_at(docs(entries@), key@, j),
        decreases entries.len() - i,
    {
        assert(docs(entries@)[i as int].0 == entries@[i as int].0@);
        if same_key(&entries[i].0, key) {
            return Some(i);
        }
        i += 1;
    }
    None
}

/// Merges `right` onto `left` in place. Mappings are merged key by key; lists
/// and scalars are replaced wholesale. A null `right`, which is what an empty
/// file holds, leaves `left` untouched.
pub fn merge_yaml<S>(left: &mut Layer<S>, right: Layer<S>)
    ensures
        final(left).doc() == merged(old(left).doc(), right.doc()),
    decreases right,
{
    if right.is_null() {
        return;
    }
    match right {
        Layer::Mapping(map_right) => {
            if let Layer::Mapping(map_left) = left {
                merge_entries(map_left, map_right);
            } else {
                *left = Layer::Mapping(map_right);
            }
        },
        other => {
            *left = other;
        },
    }
}

fn merge_entries<S>(left: &mut Vec<(Key, Layer<S>)>, right: Vec<(Key, Layer<S>)>)
    ensures
        docs(final(left)@) == merged_entries(docs(old(left)@), docs(right@)),
    decreases right,
{
    let ghost before = left@;
    let ghost all = right@;
    assert(all.take(0) =~= Seq::empty());
    for entry in it: right
        invariant
            it.seq() == all,
            docs(left@) == merged_entries(docs(before), docs(all.take(it.index()))),
    {
        let ghost sofar = left@;
        let ghost n = it.index();
        proof {
            assert(all.take(n + 1).drop_last() =~= all.take(n));
            assert(all.take(n + 1).last() == entry);
            assert(docs(all.take(n + 1)).drop_last() =~= docs(all.take(n)));
            lemma_docs(sofar);
        }
        let (key, value) = entry;
        match find_key(left, &key) {
            Some(i) => {
                merge_yaml(&mut left[i].1, value);
                proof {
                    lemma_docs(left@);
                    lemma_first_at(docs(sofar), key@, i as int);
                    assert(docs(left@) =~= docs(sofar).update(
                        i as int,
                        (docs(sofar)[i as int].0, merged(docs(sofar)[i as int].1, value.doc())),
                    ));
                }
            },
            None => {
                left.push((key, value));
                assert(left@.drop_last() =~= sofar);
            },
        }
    }
    assert(all.take(all.len() as int) =~= all);
}

proof fn lemma_first_at<S>(entries: Seq<(KeyView, Doc<S>)>, key: KeyView, i: int)
    requires
        first_at(entries, key, i),
    ensures
        first_index(entries, key) == i,
{
    let k = first_index(entries, key);
    assert(first_at(entries, key, k));
    if k < i {
        assert(!entry_at(entries, key, k));
    } else if i < k {
        assert(!entry_at(entries, key, i));
    }
}

// ---------------------------------------------------------------------------
// Loading
// ---------------------------------------------------------------------------

/// A configuration file as it was found.
#[derive(Debug)]
pub struct ConfigFile {
    pub path: String,
    pub content: FileContent,
}

/// What came out of a file, or why nothing did.
#[derive(Debug)]
pub enum FileContent {
    /// The file could not be opened.
    Unreadable(String),
    /// The file could be opened, but not read to its end.
    Broken(String),
    Bytes(Vec<u8>),
}

/// Why no configuration could be loaded.
#[derive(Debug)]
pub enum LoadError {
    Unreadable { path: String, error: String },
    Unparsable { path: String, error: String },
    NoMapping { path: String },
    /// The documents together do not make up a configuration.
    Schema { paths: Vec<String>, error: String },
    Invalid(ConfigError),
}

/// Why no configuration could be loaded, as a mathematical value.
pub enum LoadFault {
    Unreadable { path: Seq<char>, error: Seq<char> },
    Unparsable { path: Seq<char>, error: Seq<char> },
    NoMapping { path: Seq<char> },
    Schema { paths: Seq<String>, error: Seq<char> },
    Invalid(Fault),
}

impl View for LoadError {
    type V = LoadFault;

    open spec fn view(&self) -> LoadFault {
        match *self {
            LoadError::Unreadable { path, error } => LoadFault::Unreadable { path: path@, error: error@ },
            LoadError::Unparsable { path, error } => LoadFault::Unparsable { path: path@, error: error@ },
            LoadError::NoMapping { path } => LoadFault::NoMapping { path: path@ },
            LoadError::Schema { paths, error } => LoadFault::Schema { paths: paths@, error: error@ },
            LoadError::Invalid(e) => LoadFault::Invalid(e@),
        }
    }
}

/// Names with commas in between.
pub open spec fn joined(names: Seq<String>) -> Seq<char>
    decreases names.len(),
{
    if names.len() == 0 {
        Seq::empty()
    } else if names.len() == 1 {
        names[0]@
    } else {
        joined(names.drop_last()) + ", "@ + names.last()@
    }
}

impl LoadFault {
    /// What is told to the operator. `number` is how the number of a fault that
    /// is no integer is written.
    pub open spec fn message(self, number: Seq<char>) -> Seq<char> {
        match self {
            LoadFault::Unreadable { path, error } => "Failed to read config file '"@ + path + "': "@ + error,
            LoadFault::Unparsable { path, error } => "Failed to parse config file '"@ + path + "': "@ + error,
            LoadFault::NoMapping { path } => "Config file '"@ + path
                + "' must contain a YAML mapping at the top level"@,
            LoadFault::Schema { paths, error } => "Failed to parse config ["@ + joined(paths) + "]: "@ + error,
            LoadFault::Invalid(fault) => fault.message(number),
        }
    }
}

fn join(names: &Vec<String>) -> (r: String)
    ensures
        r@ == joined(names@),
{
    let mut list = String::new();
    let mut i: usize = 0;
    assert(names@.take(0) =~= Seq::empty());
    while i < names.len()
        invariant
            i <= names@.len(),
            list@ == joined(names@.take(i as int)),
        decreases names.len() - i,
    {
        proof {
            let t = names@.take(i + 1);
            assert(t.drop_last() =~= names@.take(i as int));
            assert(t.last() == names@[i as int]);
            assert(Seq::<char>::empty() + t.last()@ =~= t.last()@);
        }
        if i > 0 {
            list.append(", ");
        }
        list.append(names[i].as_str());
        i += 1;
    }
    assert(names@.take(names@.len() as int) =~= names@);
    list
}

impl LoadError {
    /// The number of a fault that is no integer.
    pub fn number(&self) -> (r: Option<F32>)
        ensures
            r == match self@ {
                LoadFault::Invalid(Fault::CacheThreshold(x)) => Some(x),
                LoadFault::Invalid(Fault::JitterFactor(x)) => Some(x),
                _ => None,
            },
    {
        match self {
            LoadError::Invalid(e) => e.number(),
            _ => None,
        }
    }

    /// What is told to the operator. `number` is how the number of a fault that
    /// is no integer is written.
    pub fn message(&self, number: &str) -> (r: String)
        ensures
            r@ == self@.message(number@),
    {
        match self {
            LoadError::Unreadable { path, error } => "Failed to read config file '".to_owned().concat(
                path.as_str(),
            ).concat("': ").concat(error.as_str()),
            LoadError::Unparsable { path, error } => "Failed to parse config file '".to_owned().concat(
                path.as_str(),
            ).concat("': ").concat(error.as_str()),
            LoadError::NoMapping { path } => "Config file '".to_owned().concat(path.as_str()).concat(
                "' must contain a YAML mapping at the top level",
            ),
            LoadError::Schema { paths, error } => "Failed to parse config [".to_owned().concat(
                join(paths).as_str(),
            ).concat("]: ").concat(error.as_str()),
            LoadError::Invalid(e) => e.message(number),
        }
    }
}

impl ConfigFile {
    /// What is wrong with the file.
    pub open spec fn fault(self) -> Option<LoadFault> {
        match self.content {
            FileContent::Unreadable(error) => Some(LoadFault::Unreadable { path: self.path@, error: error@ }),
            FileContent::Broken(error) => Some(LoadFault::Unparsable { path: self.path@, error: error@ }),
            FileContent::Bytes(bytes) => match yaml_doc(bytes@) {
                Ok(doc) => if doc.is_null() || doc.is_mapping() {
                    None
                } else {
                    Some(LoadFault::NoMapping { path: self.path@ })
                },
                Err(error) => Some(LoadFault::Unparsable { path: self.path@, error }),
            },
        }
    }

    /// The document in a file with which nothing is wrong.
    pub open spec fn doc(self) -> Doc<Value> {
        yaml_doc(self.content->Bytes_0@)->Ok_0
    }
}

/// What is wrong with the first bad file.
pub open spec fn first_fault(files: Seq<ConfigFile>) -> Option<LoadFault>
    decreases files.len(),
{
    if files.len() == 0 {
        None
    } else if first_fault(files.drop_last()) is Some {
        first_fault(files.drop_last())
    } else {
        files.last().fault()
    }
}

/// The documents in the files.
pub open spec fn file_docs(files: Seq<ConfigFile>) -> Seq<Doc<Value>> {
    Seq::new(files.len(), |i: int| files[i].doc())
}

/// The names of the files.
pub open spec fn file_paths(files: Seq<ConfigFile>) -> Seq<Seq<char>> {
    Seq::new(files.len(), |i: int| files[i].path@)
}

/// Reads and layers the files in their order: later ones win. Fails with what
/// is wrong with the first bad one.
pub fn layer_files(files: &Vec<ConfigFile>) -> (r: Result<Layer<Value>, LoadError>)
    ensures
        r is Ok <==> first_fault(files@) is None,
        r matches Ok(layer) ==> layer.doc() == layered(file_docs(files@)),
        r matches Err(e) ==> first_fault(files@) == Some(e@),
{
    let mut result: Layer<Value> = Layer::Mapping(Vec::new());
    let mut n: usize = 0;
    proof {
        assert(files@.take(0) =~= Seq::empty());
        assert(file_docs(files@.take(0)) =~= Seq::empty());
    }
    while n < files.len()
        invariant
            n <= files@.len(),
            first_fault(files@.take(n as int)) is None,
            result.doc() == layered(file_docs(files@.take(n as int))),
        decreases files.len() - n,
    {
        let file: &ConfigFile = &files[n];
        proof {
            assert(files@.take(n + 1).drop_last() =~= files@.take(n as int));
            assert(files@.take(n + 1).last() == *file);
            assert(file_docs(files@.take(n + 1)).drop_last() =~= file_docs(files@.take(n as int)));
            if file.fault() is Some {
                lemma_first_fault(files@, n + 1);
            }
        }
        match &file.content {
            FileContent::Unreadable(error) => {
                return Err(LoadError::Unreadable { path: file.path.clone(), error: error.clone() });
            },
            FileContent::Broken(error) => {
                return Err(LoadError::Unparsable { path: file.path.clone(), error: error.clone() });
            },
            FileContent::Bytes(bytes) => match parse_yaml(bytes.as_slice()) {
                Ok(layer) => {
                    if !layer.is_null() && !layer.is_mapping() {
                        return Err(LoadError::NoMapping { path: file.path.clone() });
                    }
                    merge_yaml(&mut result, layer);
                },
                Err(error) => {
                    return Err(LoadError::Unparsable { path: file.path.clone(), error });
                },
            },
        }
        n += 1;
    }
    assert(files@.take(files@.len() as int) =~= files@);
    Ok(result)
}

proof fn lemma_first_fault(files: Seq<ConfigFile>, n: int)
    requires
        0 <= n <= files.len(),
        first_fault(files.take(n)) is Some,
    ensures
        first_fault(files) == first_fault(files.take(n)),
    decreases files.len(),
{
    if n < files.len() {
        assert(files.drop_last().take(n) =~= files.take(n));
        lemma_first_fault(files.drop_last(), n);
    } else {
        assert(files.take(n) =~= files);
    }
}

/// What is wrong with what the documents together make up.
pub open spec fn parsed_fault(paths: Seq<String>, parsed: Result<AppConfig, String>) -> Option<LoadFault> {
    match parsed {
        Ok(config) => match config.fault() {
            Some(fault) => Some(LoadFault::Invalid(fault)),
            None => None,
        },
        Err(error) => Some(LoadFault::Schema { paths, error: error@ }),
    }
}

/// Takes what the documents together make up: a configuration that is then
/// checked, or an error that names all files, since no single one has the
/// offending line.
pub fn finish(paths: Vec<String>, parsed: Result<AppConfig, String>) -> (r: Result<AppConfig, LoadError>)
    ensures
        r is Ok <==> parsed_fault(paths@, parsed) is None,
        r matches Ok(config) ==> parsed == Ok::<AppConfig, String>(config),
        r matches Err(e) ==> parsed_fault(paths@, parsed) == Some(e@),
{
    match parsed {
        Ok(config) => match config.validate() {
            Ok(()) => Ok(config),
            Err(e) => Err(LoadError::Invalid(e)),
        },
        Err(error) => Err(LoadError::Schema { paths, error }),
    }
}

fn paths_of(files: &Vec<ConfigFile>) -> (r: Vec<String>)
    ensures
        string_views(r@) == file_paths(files@),
{
    let mut paths: Vec<String> = Vec::new();
    let mut i: usize = 0;
    while i < files.len()
        invariant
            i <= files@.len(),
            paths@.len() == i,
            forall|j: int| 0 <= j < i ==> (#[trigger] paths@[j])@ == files@[j].path@,
        decreases files.len() - i,
    {
        paths.push(files[i].path.clone());
        i += 1;
    }
    assert(string_views(paths@) =~= file_paths(files@));
    paths
}

impl AppConfig {
    /// Whether loading `files` may end with `r`, if a document is turned into a
    /// configuration by `schema`.
    pub open spec fn loads<F: Fn(Layer<Value>) -> Result<AppConfig, String>>(
        files: Seq<ConfigFile>,
        schema: F,
        r: Result<AppConfig, LoadFault>,
    ) -> bool {
        match first_fault(files) {
            Some(fault) => r == Err::<AppConfig, LoadFault>(fault),
            None => exists|layer: Layer<Value>, parsed: Result<AppConfig, String>, paths: Seq<String>|
                {
                    &&& layer.doc() == layered(file_docs(files))
                    &&& #[trigger] call_ensures(schema, (layer,), parsed)
                    &&& string_views(paths) == file_paths(files)
                    &&& r == match #[trigger] parsed_fault(paths, parsed) {
                        Some(fault) => Err::<AppConfig, LoadFault>(fault),
                        None => Ok::<AppConfig, LoadFault>(parsed->Ok_0),
                    }
                },
        }
    }

    /// Loads and layers the files in their order: later ones win, mappings are
    /// merged, lists and scalars replaced. `schema` turns the merged document
    /// into a configuration, which is then checked.
    pub fn load<F: Fn(Layer<Value>) -> Result<AppConfig, String>>(
        files: Vec<ConfigFile>,
        schema: F,
    ) -> (r: Result<AppConfig, LoadError>)
        requires
            forall|layer: Layer<Value>| call_requires(schema, (layer,)),
        ensures
            AppConfig::loads(
                files@,
                schema,
                match r {
                    Ok(config) => Ok::<AppConfig, LoadFault>(config),
                    Err(e) => Err::<AppConfig, LoadFault>(e@),
                },
            ),
            r matches Ok(config) ==> config.fault() is None,
    {
        match layer_files(&files) {
            Ok(layer) => {
                let ghost merged = layer;
                let paths = paths_of(&files);
                let ghost names = paths@;
                let parsed = schema(layer);
                let ghost made = parsed;
                let r = finish(paths, parsed);
                assert(call_ensures(schema, (merged,), made));
                assert(parsed_fault(names, made) is None <==> r is Ok);
                r
            },
            Err(e) => Err(e),
        }
    }
}

// ---------------------------------------------------------------------------
// Laws
// ---------------------------------------------------------------------------

/// An empty file changes nothing.
pub proof fn lemma_empty_overlay<S>(layers: Seq<Doc<S>>, top: Doc<S>)
    requires
        top.is_null(),
    ensures
        layered(layers.push(top)) == layered(layers),
{
    assert(layers.push(top).drop_last() =~= layers);
}

/// Lists and scalars are replaced wholesale.
pub proof fn lemma_replaced_wholesale<S>(left: Doc<S>, right: Doc<S>)
    requires
        right is Whole,
        !right.is_null(),
    ensures
        merged(left, right) == right,
{
}

/// What two mappings say of a key: the upper one is put on the lower one where
/// both name it; where only one does, its value stands.
pub open spec fn merged_value<S>(left: Option<Doc<S>>, right: Option<Doc<S>>) -> Option<Doc<S>> {
    match (left, right) {
        (Some(l), Some(r)) => Some(merged(l, r)),
        (Some(l), None) => Some(l),
        (None, r) => r,
    }
}

/// Mappings merge key by key, so an overlay only needs the keys it changes.
pub proof fn lemma_merged_by_key<S>(left: Doc<S>, right: Doc<S>, key: KeyView)
    requires
        left is Mapping,
        right is Mapping,
        once(right->Mapping_0, key),
    ensures
        merged(left, right) is Mapping,
        merged(left, right).get(key) == merged_value(left.get(key), right.get(key)),
{
    lemma_entries_by_key(left->Mapping_0, right->Mapping_0, key);
}

/// The last file wins: where it gives a key a list or a scalar, this is the
/// value, whatever the other files say.
pub proof fn lemma_last_wins<S>(layers: Seq<Doc<S>>, top: Doc<S>, key: KeyView)
    requires
        layered(layers) is Mapping,
        top is Mapping,
        once(top->Mapping_0, key),
        top.get(key) is Some,
        top.get(key)->0 is Whole,
        !top.get(key)->0.is_null(),
    ensures
        layered(layers.push(top)).get(key) == top.get(key),
{
    assert(layers.push(top).drop_last() =~= layers);
    lemma_merged_by_key(layered(layers), top, key);
}

/// Names are merged one by one in files that are read: no name occurs twice in
/// a mapping of a YAML text.
pub proof fn lemma_names_merged<S>(left: Doc<S>, right: Doc<S>, name: Seq<char>)
    requires
        left is Mapping,
        right is Mapping,
        names_once(right),
    ensures
        merged(left, right).get(KeyView::Name(name)) == merged_value(
            left.get(KeyView::Name(name)),
            right.get(KeyView::Name(name)),
        ),
{
    lemma_merged_by_key(left, right, KeyView::Name(name));
}

/// Merging is idempotent: a document that was put on top of another one changes
/// nothing when it is put on top once more.
pub proof fn lemma_merged_again<S>(left: Doc<S>, right: Doc<S>)
    requires
        keys_once(right),
    ensures
        merged(merged(left, right), right) == merged(left, right),
    decreases right,
{
    if right is Mapping {
        if left is Mapping {
            let l = left->Mapping_0;
            let r = right->Mapping_0;
            let m = merged_entries(l, r);
            assert forall|i: int| 0 <= i < r.len() implies absorbs(m, #[trigger] r[i]) by {
                let (key, value) = r[i];
                lemma_sole_entry(r, key, i);
                lemma_entries_by_key(l, r, key);
                assert(decreases_to!(right => r[i].1));
                if lookup(l, key) is Some {
                    lemma_merged_again(lookup(l, key)->0, r[i].1);
                } else {
                    lemma_merged_onto_itself(r[i].1);
                }
            }
            lemma_absorbed(m, r);
        } else {
            lemma_merged_onto_itself(right);
        }
    }
}

/// Layering the same document twice in a row changes nothing.
pub proof fn lemma_layered_again<S>(layers: Seq<Doc<S>>, top: Doc<S>)
    requires
        keys_once(top),
    ensures
        layered(layers.push(top).push(top)) == layered(layers.push(top)),
{
    assert(layers.push(top).push(top).drop_last() =~= layers.push(top));
    assert(layers.push(top).drop_last() =~= layers);
    lemma_merged_again(layered(layers), top);
}

/// A document on top of itself is the document.
pub proof fn lemma_merged_onto_itself<S>(doc: Doc<S>)
    requires
        keys_once(doc),
    ensures
        merged(doc, doc) == doc,
    decreases doc,
{
    if doc is Mapping {
        let entries = doc->Mapping_0;
        assert forall|i: int| 0 <= i < entries.len() implies absorbs(entries, #[trigger] entries[i]) by {
            lemma_sole_entry(entries, entries[i].0, i);
            assert(decreases_to!(doc => entries[i].1));
            lemma_merged_onto_itself(entries[i].1);
        }
        lemma_absorbed(entries, entries);
    }
}

/// Whether putting an entry on top of these changes nothing.
spec fn absorbs<S>(entries: Seq<(KeyView, Doc<S>)>, e: (KeyView, Doc<S>)) -> bool {
    &&& lookup(entries, e.0) is Some
    &&& merged(lookup(entries, e.0)->0, e.1) == lookup(entries, e.0)->0
}

proof fn lemma_absorbed<S>(entries: Seq<(KeyView, Doc<S>)>, right: Seq<(KeyView, Doc<S>)>)
    requires
        forall|i: int| 0 <= i < right.len() ==> absorbs(entries, #[trigger] right[i]),
    ensures
        merged_entries(entries, right) == entries,
    decreases right.len(),
{
    if right.len() > 0 {
        let head = right.drop_last();
        assert forall|i: int| 0 <= i < head.len() implies absorbs(entries, #[trigger] head[i]) by {
            assert(head[i] == right[i]);
        }
        lemma_absorbed(entries, head);
        let (key, value) = right.last();
        assert(absorbs(entries, right[right.len() - 1]));
        let i = first_index(entries, key);
        lemma_lookup(entries, key, i);
        assert(entries[i].0 == key) by {
            assert(entry_at(entries, key, i));
        }
        assert(entries.update(i, (entries[i].0, merged(entries[i].1, value))) =~= entries);
    }
}

proof fn lemma_sole_entry<S>(entries: Seq<(KeyView, Doc<S>)>, key: KeyView, i: int)
    requires
        once(entries, key),
        entry_at(entries, key, i),
    ensures
        lookup(entries, key) == Some(entries[i].1),
{
    lemma_has_first(entries, key, i);
    let k = first_index(entries, key);
    lemma_lookup(entries, key, k);
    assert(entry_at(entries, key, k));
}

proof fn lemma_load_outcome<F: Fn(Layer<Value>) -> Result<AppConfig, String>>(
    files: Seq<ConfigFile>,
    schema: F,
    r: Result<AppConfig, LoadFault>,
) -> (outcome: (Layer<Value>, Result<AppConfig, String>, Seq<String>))
    requires
        first_fault(files) is None,
        AppConfig::loads(files, schema, r),
    ensures
        outcome.0.doc() == layered(file_docs(files)),
        call_ensures(schema, (outcome.0,), outcome.1),
        r == match parsed_fault(outcome.2, outcome.1) {
            Some(fault) => Err::<AppConfig, LoadFault>(fault),
            None => Ok::<AppConfig, LoadFault>(outcome.1->Ok_0),
        },
{
    choose|layer: Layer<Value>, parsed: Result<AppConfig, String>, paths: Seq<String>|
        {
            &&& layer.doc() == layered(file_docs(files))
            &&& #[trigger] call_ensures(schema, (layer,), parsed)
            &&& string_views(paths) == file_paths(files)
            &&& r == match #[trigger] parsed_fault(paths, parsed) {
                Some(fault) => Err::<AppConfig, LoadFault>(fault),
                None => Ok::<AppConfig, LoadFault>(parsed->Ok_0),
            }
        }
}

/// If every file can be read and is empty or a mapping, and their documents
/// together make up a configuration, loading succeeds with it exactly if it is
/// valid, and otherwise fails with the text of its fault.
pub proof fn lemma_loads_iff_valid<F: Fn(Layer<Value>) -> Result<AppConfig, String>>(
    files: Seq<ConfigFile>,
    schema: F,
    config: AppConfig,
    r: Result<AppConfig, LoadFault>,
    number: Seq<char>,
)
    requires
        first_fault(files) is None,
        forall|layer: Layer<Value>, parsed: Result<AppConfig, String>|
            layer.doc() == layered(file_docs(files)) && #[trigger] call_ensures(schema, (layer,), parsed) ==> parsed
                == Ok::<AppConfig, String>(config),
        AppConfig::loads(files, schema, r),
    ensures
        config.fault() is None ==> r == Ok::<AppConfig, LoadFault>(config),
        config.fault() matches Some(fault) ==> r is Err && r->Err_0.message(number) == fault.message(number),
{
    let outcome = lemma_load_outcome(files, schema, r);
}

/// No invalid configuration is ever loaded, and a bad file is never passed
/// over.
pub proof fn lemma_loaded_is_valid<F: Fn(Layer<Value>) -> Result<AppConfig, String>>(
    files: Seq<ConfigFile>,
    schema: F,
    config: AppConfig,
)
    requires
        AppConfig::loads(files, schema, Ok(config)),
    ensures
        config.fault() is None,
        first_fault(files) is None,
{
    assert(first_fault(files) is None);
    let outcome = lemma_load_outcome(files, schema, Ok(config));
    assert(parsed_fault(outcome.2, outcome.1) is None);
}

/// Layers of mappings and empty files make up a mapping.
pub proof fn lemma_layered_is_mapping<S>(layers: Seq<Doc<S>>)
    requires
        forall|i: int| 0 <= i < layers.len() ==> (#[trigger] layers[i]) is Mapping || layers[i].is_null(),
    ensures
        layered(layers) is Mapping,
    decreases layers.len(),
{
    if layers.len() > 0 {
        assert forall|i: int| 0 <= i < layers.len() - 1 implies (#[trigger] layers.drop_last()[i]) is Mapping
            || layers.drop_last()[i].is_null() by {
            assert(layers[i] is Mapping || layers[i].is_null());
        }
        lemma_layered_is_mapping(layers.drop_last());
        assert(layers[layers.len() - 1] is Mapping || layers[layers.len() - 1].is_null());
    }
}

spec fn lookup<S>(entries: Seq<(KeyView, Doc<S>)>, key: KeyView) -> Option<Doc<S>> {
    Doc::Mapping(entries).get(key)
}

proof fn lemma_has_first<S>(entries: Seq<(KeyView, Doc<S>)>, key: KeyView, i: int)
    requires
        entry_at(entries, key, i),
    ensures
        exists|k: int| first_at(entries, key, k),
    decreases i,
{
    if !first_at(entries, key, i) {
        let j = choose|j: int| 0 <= j < i && entry_at(entries, key, j);
        lemma_has_first(entries, key, j);
    }
}

proof fn lemma_lookup<S>(entries: Seq<(KeyView, Doc<S>)>, key: KeyView, i: int)
    requires
        first_at(entries, key, i),
    ensures
        lookup(entries, key) == Some(entries[i].1),
{
    let doc = Doc::Mapping(entries);
    assert(doc->Mapping_0 == entries);
    lemma_first_at(entries, key, i);
    assert(exists|k: int| first_at(entries, key, k));
    assert(doc.get(key) == Some(entries[first_index(entries, key)].1));
}

proof fn lemma_lookup_none<S>(entries: Seq<(KeyView, Doc<S>)>, key: KeyView)
    ensures
        lookup(entries, key) is None <==> forall|i: int| !entry_at(entries, key, i),
{
    if lookup(entries, key) is None {
        assert forall|i: int| !entry_at(entries, key, i) by {
            if entry_at(entries, key, i) {
                lemma_has_first(entries, key, i);
            }
        }
    } else {
        let i = first_index(entries, key);
        assert(entry_at(entries, key, i));
    }
}

proof fn lemma_lookup_push<S>(entries: Seq<(KeyView, Doc<S>)>, e: (KeyView, Doc<S>), key: KeyView)
    ensures
        lookup(entries.push(e), key) == if lookup(entries, key) is Some {
            lookup(entries, key)
        } else if e.0 == key {
            Some(e.1)
        } else {
            None
        },
{
    let pushed = entries.push(e);
    lemma_lookup_none(entries, key);
    lemma_lookup_none(pushed, key);
    if lookup(entries, key) is Some {
        let i = first_index(entries, key);
        lemma_lookup(entries, key, i);
        assert(first_at(pushed, key, i)) by {
            assert forall|j: int| 0 <= j < i implies !entry_at(pushed, key, j) by {
                assert(!entry_at(entries, key, j));
            }
        }
        lemma_lookup(pushed, key, i);
    } else {
        let n = entries.len() as int;
        if e.0 == key {
            assert forall|j: int| 0 <= j < n implies !entry_at(pushed, key, j) by {
                assert(!entry_at(entries, key, j));
            }
            assert(first_at(pushed, key, n));
            lemma_lookup(pushed, key, n);
        } else {
            assert forall|j: int| !entry_at(pushed, key, j) by {
                assert(!entry_at(entries, key, j));
            }
        }
    }
}

proof fn lemma_lookup_update<S>(entries: Seq<(KeyView, Doc<S>)>, i: int, value: Doc<S>, key: KeyView)
    requires
        0 <= i < entries.len(),
        first_at(entries, entries[i].0, i),
    ensures
        lookup(entries.update(i, (entries[i].0, value)), key) == if key == entries[i].0 {
            Some(value)
        } else {
            lookup(entries, key)
        },
{
    let updated = entries.update(i, (entries[i].0, value));
    assert forall|k: KeyView, j: int| entry_at(updated, k, j) == #[trigger] entry_at(entries, k, j) by {}
    assert forall|j: int| first_at(updated, key, j) == #[trigger] first_at(entries, key, j) by {
        assert forall|m: int| entry_at(updated, key, m) == entry_at(entries, key, m) by {}
    }
    lemma_lookup_none(entries, key);
    lemma_lookup_none(updated, key);
    if lookup(entries, key) is Some {
        let j = first_index(entries, key);
        lemma_lookup(entries, key, j);
        lemma_lookup(updated, key, j);
        if key == entries[i].0 {
            lemma_first_at(entries, key, i);
            assert(updated[j].1 == value);
        } else {
            assert(entries[j].0 == key);
            assert(updated[j] == entries[j]);
        }
    } else {
        assert(!entry_at(entries, key, i));
        assert forall|j: int| !entry_at(updated, key, j) by {
            assert(!entry_at(entries, key, j));
        }
    }
}

proof fn lemma_entries_by_key<S>(
    left: Seq<(KeyView, Doc<S>)>,
    right: Seq<(KeyView, Doc<S>)>,
    key: KeyView,
)
    requires
        once(right, key),
    ensures
        lookup(merged_entries(left, right), key) == merged_value(lookup(left, key), lookup(right, key)),
    decreases right.len(),
{
    if right.len() == 0 {
        lemma_lookup_none(right, key);
    } else {
        let head = right.drop_last();
        let n = right.len() - 1;
        let (k, v) = right.last();
        let sofar = merged_entries(left, head);
        assert forall|i: int, j: int| entry_at(head, key, i) && entry_at(head, key, j) implies i == j by {
            assert(entry_at(right, key, i) && entry_at(right, key, j));
        }
        lemma_entries_by_key(left, head, key);
        assert(right =~= head.push((k, v)));
        lemma_lookup_push(head, (k, v), key);
        lemma_lookup_none(head, key);
        if k == key {
            assert forall|i: int| !entry_at(head, key, i) by {
                if entry_at(head, key, i) {
                    assert(entry_at(right, key, i) && entry_at(right, key, n));
                }
            }
        }
        lemma_lookup_none(sofar, k);
        if exists|i: int| first_at(sofar, k, i) {
            let i = first_index(sofar, k);
            lemma_lookup(sofar, k, i);
            lemma_lookup_update(sofar, i, merged(sofar[i].1, v), key);
        } else {
            lemma_lookup_push(sofar, (k, v), key);
            if k == key {
                assert(lookup(sofar, key) is None);
            }
        }
    }
}

/// What counts as nothing and what as a mapping.
pub proof fn lemma_kinds<S>(layer: &Layer<S>, null: bool, mapping: bool)
    requires
        call_ensures(Layer::<S>::is_null, (layer,), null),
        call_ensures(Layer::<S>::is_mapping, (layer,), mapping),
    ensures
        layer is Mapping ==> !null && mapping,
        *layer matches Layer::Whole(_, shape) ==> null == shape.null && mapping == shape.mapping,
{
}

/// The entries of a document that is a mapping.
pub open spec fn entries_of<S>(doc: Doc<S>) -> Seq<(KeyView, Doc<S>)> {
    doc->Mapping_0
}

/// What is put on top of a document: nothing leaves it as it is; a list or a
/// scalar takes its place; a mapping takes the place of a list or a scalar.
pub proof fn lemma_put_on_top<S>(left: &mut Layer<S>, right: Layer<S>)
    requires
        call_ensures(merge_yaml::<S>, (left, right), ()),
    ensures
        right.doc() matches Doc::Whole(_, shape) ==> shape.null ==> final(left).doc() == old(left).doc(),
        right.doc() matches Doc::Whole(_, shape) ==> !shape.null ==> final(left).doc() == right.doc(),
        right.doc() is Mapping && old(left).doc() is Whole ==> final(left).doc() == right.doc(),
        right.doc() is Mapping && old(left).doc() is Mapping ==> final(left).doc() is Mapping,
{
}

proof fn lemma_places<S>(left: Seq<(KeyView, Doc<S>)>, right: Seq<(KeyView, Doc<S>)>)
    ensures
        merged_entries(left, right).len() >= left.len(),
        forall|i: int| 0 <= i < left.len() ==> (#[trigger] merged_entries(left, right)[i]).0 == left[i].0,
        forall|p: int|
            left.len() <= p < merged_entries(left, right).len() ==> exists|j: int|
                0 <= j < right.len() && (#[trigger] right[j]).0 == (#[trigger] merged_entries(left, right)[p]).0,
    decreases right.len(),
{
    if right.len() > 0 {
        let head = right.drop_last();
        let sofar = merged_entries(left, head);
        let m = merged_entries(left, right);
        lemma_places(left, head);
        let (key, value) = right.last();
        if exists|i: int| first_at(sofar, key, i) {
            let k = first_index(sofar, key);
            assert(entry_at(sofar, key, k));
            assert(m =~= sofar.update(k, (sofar[k].0, merged(sofar[k].1, value))));
        } else {
            assert(m =~= sofar.push((key, value)));
        }
        assert forall|i: int| 0 <= i < left.len() implies (#[trigger] m[i]).0 == left[i].0 by {
            assert(sofar[i].0 == left[i].0);
        }
        assert forall|p: int| left.len() <= p < m.len() implies exists|j: int|
            0 <= j < right.len() && (#[trigger] right[j]).0 == (#[trigger] m[p]).0 by {
            if p < sofar.len() {
                assert(m[p].0 == sofar[p].0);
                let j = choose|j: int| 0 <= j < head.len() && (#[trigger] head[j]).0 == sofar[p].0;
                assert(right[j].0 == m[p].0);
            } else {
                assert(right[right.len() - 1].0 == m[p].0);
            }
        }
    }
}

proof fn lemma_kept_first<S>(left: Seq<(KeyView, Doc<S>)>, right: Seq<(KeyView, Doc<S>)>, i: int)
    requires
        0 <= i < left.len(),
        once(left, left[i].0),
    ensures
        first_at(left, left[i].0, i),
        first_at(merged_entries(left, right), left[i].0, i),
{
    let key = left[i].0;
    let m = merged_entries(left, right);
    lemma_places(left, right);
    assert(entry_at(left, key, i));
    assert(m[i].0 == left[i].0);
    assert forall|j: int| 0 <= j < i implies !entry_at(m, key, j) && !entry_at(left, key, j) by {
        assert(m[j].0 == left[j].0);
        if entry_at(left, key, j) {
            assert(i == j);
        }
    }
}

/// A key keeps its place. Where both documents have it, the two values are put
/// on top of each other in the same way; where only the lower one has it, its
/// value stays.
pub proof fn lemma_key_on_key<S>(
    left: &mut Layer<S>,
    right: Layer<S>,
    a: &mut Layer<S>,
    b: Layer<S>,
    i: int,
    j: int,
)
    requires
        call_ensures(merge_yaml::<S>, (left, right), ()),
        old(left).doc() is Mapping,
        right.doc() is Mapping,
        0 <= i < entries_of(old(left).doc()).len(),
        once(entries_of(old(left).doc()), entries_of(old(left).doc())[i].0),
        once(entries_of(right.doc()), entries_of(old(left).doc())[i].0),
        old(a).doc() == entries_of(old(left).doc())[i].1,
        call_ensures(merge_yaml::<S>, (a, b), ()),
    ensures
        entries_of(final(left).doc())[i].0 == entries_of(old(left).doc())[i].0,
        entry_at(entries_of(right.doc()), entries_of(old(left).doc())[i].0, j) && b.doc() == entries_of(
            right.doc(),
        )[j].1 ==> entries_of(final(left).doc())[i].1 == final(a).doc(),
        (forall|k: int| !entry_at(entries_of(right.doc()), entries_of(old(left).doc())[i].0, k)) ==> entries_of(
            final(left).doc(),
        )[i] == entries_of(old(left).doc())[i],
{
    let l = entries_of(old(left).doc());
    let r = entries_of(right.doc());
    let m = merged_entries(l, r);
    let key = l[i].0;
    assert(entries_of(final(left).doc()) == m);
    lemma_places(l, r);
    lemma_kept_first(l, r, i);
    lemma_lookup(l, key, i);
    lemma_lookup(m, key, i);
    lemma_entries_by_key(l, r, key);
    lemma_lookup_none(r, key);
    if entry_at(r, key, j) {
        lemma_sole_entry(r, key, j);
    }
}

/// A key that is new comes behind those that were there, with its value, and no
/// other key comes in.
pub proof fn lemma_new_key<S>(left: &mut Layer<S>, right: Layer<S>, j: int)
    requires
        call_ensures(merge_yaml::<S>, (left, right), ()),
        old(left).doc() is Mapping,
        right.doc() is Mapping,
    ensures
        entries_of(final(left).doc()).len() >= entries_of(old(left).doc()).len(),
        forall|p: int|
            entries_of(old(left).doc()).len() <= p < entries_of(final(left).doc()).len() ==> exists|k: int|
                0 <= k < entries_of(right.doc()).len() && (#[trigger] entries_of(right.doc())[k]).0 == (
                #[trigger] entries_of(final(left).doc())[p]).0,
        0 <= j < entries_of(right.doc()).len() && once(entries_of(right.doc()), entries_of(right.doc())[j].0) && (
        forall|i: int| !entry_at(entries_of(old(left).doc()), entries_of(right.doc())[j].0, i)) ==> exists|p: int|
            entries_of(old(left).doc()).len() <= p < entries_of(final(left).doc()).len() && #[trigger] entries_of(
                final(left).doc(),
            )[p] == entries_of(right.doc())[j],
{
    let l = entries_of(old(left).doc());
    let r = entries_of(right.doc());
    let m = merged_entries(l, r);
    assert(entries_of(final(left).doc()) == m);
    lemma_places(l, r);
    if 0 <= j < r.len() && once(r, r[j].0) && forall|i: int| !entry_at(l, r[j].0, i) {
        let key = r[j].0;
        assert(entry_at(r, key, j));
        lemma_sole_entry(r, key, j);
        lemma_lookup_none(l, key);
        lemma_entries_by_key(l, r, key);
        lemma_lookup_none(m, key);
        let p = choose|p: int| entry_at(m, key, p);
        lemma_has_first(m, key, p);
        let q = first_index(m, key);
        lemma_lookup(m, key, q);
        assert(m[q] == (key, r[j].1));
        if q < l.len() {
            assert(m[q].0 == l[q].0);
            assert(entry_at(l, key, q));
        }
    }
}

/// No files make up an empty mapping.
pub proof fn lemma_no_files(files: &Vec<ConfigFile>, r: Result<Layer<Value>, LoadError>)
    requires
        call_ensures(layer_files, (files,), r),
        files@.len() == 0,
    ensures
        r is Ok,
        r->Ok_0.doc() is Mapping,
        entries_of(r->Ok_0.doc()).len() == 0,
{
    assert(file_docs(files@).len() == 0);
}

/// One file more: an earlier fault stays the fault that is told. Otherwise a
/// file that cannot be opened, cannot be read to its end, is no YAML text, or
/// holds a list or a scalar is told of by its path; and what any other file
/// holds is put on top of what the files before it made up.
pub proof fn lemma_one_file_more(
    files: &Vec<ConfigFile>,
    more: &Vec<ConfigFile>,
    file: ConfigFile,
    bytes: &[u8],
    parsed: Result<Layer<Value>, String>,
    r: Result<Layer<Value>, LoadError>,
    s: Result<Layer<Value>, LoadError>,
    base: &mut Layer<Value>,
)
    requires
        more@ == files@.push(file),
        call_ensures(layer_files, (files,), r),
        call_ensures(layer_files, (more,), s),
        file.content matches FileContent::Bytes(content) ==> content@ == bytes@,
        call_ensures(parse_yaml, (bytes,), parsed),
        r matches Ok(layer) ==> old(base).doc() == layer.doc(),
        parsed matches Ok(top) ==> call_ensures(merge_yaml::<Value>, (base, top), ()),
    ensures
        r matches Err(e) ==> s is Err && s->Err_0@ == e@,
        r is Ok ==> match file.content {
            FileContent::Unreadable(error) => s is Err && s->Err_0@ == (LoadFault::Unreadable {
                path: file.path@,
                error: error@,
            }),
            FileContent::Broken(error) => s is Err && s->Err_0@ == (LoadFault::Unparsable {
                path: file.path@,
                error: error@,
            }),
            FileContent::Bytes(_) => match parsed {
                Err(error) => s is Err && s->Err_0@ == (LoadFault::Unparsable { path: file.path@, error: error@ }),
                Ok(Layer::Mapping(_)) => s is Ok && s->Ok_0.doc() == final(base).doc(),
                Ok(Layer::Whole(_, shape)) => if shape.null || shape.mapping {
                    s is Ok && s->Ok_0.doc() == final(base).doc()
                } else {
                    s is Err && s->Err_0@ == (LoadFault::NoMapping { path: file.path@ })
                },
            },
        },
{
    assert(more@.drop_last() =~= files@);
    assert(more@.last() == file);
    assert(file_docs(more@).drop_last() =~= file_docs(files@));
    if file.content is Bytes {
        assert(bytes@ =~= file.content->Bytes_0@);
    }
}

/// What the documents together make up is checked: if they make up nothing, all
/// files are named, with the reason; if a configuration, it stands if it is
/// acceptable.
pub proof fn lemma_finished(
    paths: Vec<String>,
    parsed: Result<AppConfig, String>,
    r: Result<AppConfig, LoadError>,
)
    requires
        call_ensures(finish, (paths, parsed), r),
    ensures
        parsed matches Err(error) ==> r is Err && r->Err_0@ == (LoadFault::Schema { paths: paths@, error: error@ }),
        parsed matches Ok(config) ==> (r is Ok <==> acceptable(config)),
        r matches Ok(config) ==> parsed == Ok::<AppConfig, String>(config),
        parsed is Ok && r is Err ==> r->Err_0 is Invalid,
{
    if parsed is Ok {
        lemma_acceptable(parsed->Ok_0);
    }
}

/// A configuration that cannot stand is refused for the reason that the check
/// gives.
pub proof fn lemma_finished_reason(
    paths: Vec<String>,
    config: AppConfig,
    r: Result<AppConfig, LoadError>,
    checked: Result<(), ConfigError>,
)
    requires
        call_ensures(finish, (paths, Ok(config)), r),
        call_ensures(AppConfig::validate, (&config,), checked),
    ensures
        r is Ok <==> checked is Ok,
        checked matches Err(e) ==> r->Err_0@ == LoadFault::Invalid(e@),
{
}

/// Loading layers the files, has a configuration made of what they make up, and
/// checks it.
pub proof fn lemma_loaded<F: Fn(Layer<Value>) -> Result<AppConfig, String>>(
    files: Vec<ConfigFile>,
    schema: F,
    r: Result<AppConfig, LoadError>,
    layered_files: Result<Layer<Value>, LoadError>,
)
    requires
        call_ensures(AppConfig::load::<F>, (files, schema), r),
        call_ensures(layer_files, (&files,), layered_files),
    ensures
        layered_files matches Err(e) ==> r is Err && r->Err_0@ == e@,
        layered_files matches Ok(made) ==> exists|layer: Layer<Value>, parsed: Result<AppConfig, String>|
            {
                &&& layer.doc() == made.doc()
                &&& #[trigger] call_ensures(schema, (layer,), parsed)
                &&& match parsed {
                    Ok(config) => if acceptable(config) {
                        r == Ok::<AppConfig, LoadError>(config)
                    } else {
                        r is Err && r->Err_0 is Invalid
                    },
                    Err(error) => {
                        &&& r is Err
                        &&& r->Err_0@ matches LoadFault::Schema { paths, error: told } && told == error@ && paths.len()
                            == files@.len() && forall|i: int|
                            0 <= i < paths.len() ==> (#[trigger] paths[i])@ == files@[i].path@
                    },
                }
            },
        r matches Ok(config) ==> acceptable(config),
{
    let outcome_of = match r {
        Ok(config) => Ok::<AppConfig, LoadFault>(config),
        Err(e) => Err::<AppConfig, LoadFault>(e@),
    };
    if r is Ok {
        lemma_acceptable(r->Ok_0);
    }
    if layered_files is Ok {
        let (layer, parsed, paths) = choose|layer: Layer<Value>, parsed: Result<AppConfig, String>, paths: Seq<String>|
            {
                &&& layer.doc() == layered(file_docs(files@))
                &&& #[trigger] call_ensures(schema, (layer,), parsed)
                &&& string_views(paths) == file_paths(files@)
                &&& outcome_of == match #[trigger] parsed_fault(paths, parsed) {
                    Some(fault) => Err::<AppConfig, LoadFault>(fault),
                    None => Ok::<AppConfig, LoadFault>(parsed->Ok_0),
                }
            };
        if parsed is Ok {
            lemma_acceptable(parsed->Ok_0);
        } else {
            assert(string_views(paths).len() == paths.len());
            assert forall|i: int| 0 <= i < paths.len() implies (#[trigger] paths[i])@ == files@[i].path@ by {
                assert(string_views(paths)[i] == paths[i]@);
                assert(file_paths(files@)[i] == files@[i].path@);
            }
        }
        assert(call_ensures(schema, (layer,), parsed));
    }
}

/// What the operator is told of a configuration that could not be loaded.
pub proof fn lemma_load_messages(e: &LoadError, number: &str, r: String)
    requires
        call_ensures(LoadError::message, (e, number), r),
    ensures
        *e matches LoadError::Unreadable { path, error } ==> r@ == "Failed to read config file '"@ + path@ + "': "@
            + error@,
        *e matches LoadError::Unparsable { path, error } ==> r@ == "Failed to parse config file '"@ + path@ + "': "@
            + error@,
        *e matches LoadError::NoMapping { path } ==> r@ == "Config file '"@ + path@
            + "' must contain a YAML mapping at the top level"@,
        *e matches LoadError::Schema { paths, error } ==> r@ == "Failed to parse config ["@ + joined(paths@) + "]: "@
            + error@,
{
}

/// The message, and the number in it, of a configuration that cannot stand are
/// those of what is wrong with it.
pub proof fn lemma_invalid_message(
    e: &LoadError,
    number: &str,
    r: String,
    s: String,
    x: Option<F32>,
    y: Option<F32>,
)
    requires
        e is Invalid,
        call_ensures(LoadError::message, (e, number), r),
        call_ensures(ConfigError::message, (&e->Invalid_0, number), s),
        call_ensures(LoadError::number, (e,), x),
        call_ensures(ConfigError::number, (&e->Invalid_0,), y),
    ensures
        r@ == s@,
        x == y,
{
}

/// Only a configuration that cannot stand has a number to tell.
pub proof fn lemma_no_number(e: &LoadError, x: Option<F32>)
    requires
        e !is Invalid,
        call_ensures(LoadError::number, (e,), x),
    ensures
        x is None,
{
}

/// Names are listed in their order, with a comma and a blank between them.
pub proof fn lemma_listing(names: &Vec<String>, more: &Vec<String>, name: String)
    requires
        more@ == names@.push(name),
    ensures
        names@.len() == 0 ==> joined(names@).len() == 0 && joined(more@) == name@,
        names@.len() > 0 ==> joined(more@) == joined(names@) + seq![',', ' '] + name@,
{
    assert(more@.drop_last() =~= names@);
    reveal_strlit(", ");
    assert(", "@ =~= seq![',', ' ']);
}

} // verus!
