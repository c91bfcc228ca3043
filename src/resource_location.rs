//! Resource identifiers of the form `namespace:path`.
use vstd::prelude::*;
use vstd::string::*;

verus! {

/// The error for an identifier with an empty part or a character outside
/// its part's alphabet.
#[derive(Debug, Clone, Copy, PartialEq, Eq, Structural)]
pub struct ParseError;

impl ParseError {
    /// A description of the error.
    pub fn to_string(&self) -> (r: String)
        ensures
            r@ == "Parse error"@,
    {
        "Parse error".to_owned()
    }
}

/// A namespaced identifier such as `minecraft:stone`.
#[derive(Debug, Clone, PartialEq, Eq, Hash, PartialOrd, Ord)]
pub struct ResourceLocation {
    namespace: String,
    path: String,
}

/// ASCII letters, digits, `_`, `-` and `.`.
pub open spec fn is_namespace_char(c: char) -> bool {
    ('a' <= c && c <= 'z') || ('A' <= c && c <= 'Z') || ('0' <= c && c <= '9') || c == '_' || c
        == '-' || c == '.'
}

/// The namespace alphabet and `/`.
pub open spec fn is_path_char(c: char) -> bool {
    is_namespace_char(c) || c == '/'
}

pub open spec fn valid_namespace(s: Seq<char>) -> bool {
    s.len() > 0 && forall|i: int| 0 <= i < s.len() ==> is_namespace_char(#[trigger] s[i])
}

pub open spec fn valid_path(s: Seq<char>) -> bool {
    s.len() > 0 && forall|i: int| 0 <= i < s.len() ==> is_path_char(#[trigger] s[i])
}

/// The namespace of an identifier written without one.
pub open spec fn default_namespace() -> Seq<char> {
    seq!['m', 'i', 'n', 'e', 'c', 'r', 'a', 'f', 't']
}

/// `i` is the position of the first `:` in `s`.
pub open spec fn is_first_colon(s: Seq<char>, i: int) -> bool {
    0 <= i < s.len() && s[i] == ':' && forall|j: int| 0 <= j < i ==> s[j] != ':'
}

/// What `s` parses to: split at the first `:` into namespace and path, or,
/// without a `:`, the default namespace and `s` as the path; `None` where a
/// part is empty or holds a character outside its alphabet.
pub open spec fn parse_spec(s: Seq<char>) -> Option<(Seq<char>, Seq<char>)> {
    if exists|i: int| is_first_colon(s, i) {
        let i = choose|i: int| is_first_colon(s, i);
        let ns = s.subrange(0, i);
        let path = s.subrange(i + 1, s.len() as int);
        if valid_namespace(ns) && valid_path(path) {
            Some((ns, path))
        } else {
            None
        }
    } else if valid_path(s) {
        Some((default_namespace(), s))
    } else {
        None
    }
}

impl View for ResourceLocation {
    type V = (Seq<char>, Seq<char>);

    closed spec fn view(&self) -> (Seq<char>, Seq<char>) {
        (self.namespace@, self.path@)
    }
}

fn is_namespace_char_exec(c: char) -> (r: bool)
    ensures
        r == is_namespace_char(c),
{
    ('a' <= c && c <= 'z') || ('A' <= c && c <= 'Z') || ('0' <= c && c <= '9') || c == '_' || c
        == '-' || c == '.'
}

impl ResourceLocation {
    /// Both parts are well formed.
    pub open spec fn wf(&self) -> bool {
        valid_namespace(self@.0) && valid_path(self@.1)
    }

    /// Returns the namespace.
    pub fn get_namespace(&self) -> (r: &str)
        ensures
            r@ == self@.0,
    {
        self.namespace.as_str()
    }

    /// Returns the path.
    pub fn get_path(&self) -> (r: &str)
        ensures
            r@ == self@.1,
    {
        self.path.as_str()
    }

    /// Builds an identifier from its two parts; fails where either part is
    /// not well formed.
    pub fn new(namespace: &str, path: &str) -> (r: Result<Self, ParseError>)
        ensures
            r is Ok <==> valid_namespace(namespace@) && valid_path(path@),
            r matches Ok(loc) ==> loc@ == (namespace@, path@) && loc.wf(),
    {
        if Self::is_valid_namespace(namespace) && Self::is_valid_path(path) {
            Ok(ResourceLocation { namespace: namespace.to_owned(), path: path.to_owned() })
        } else {
            Err(ParseError)
        }
    }

    /// Builds an identifier in the default namespace.
    pub fn minecraft(path: &str) -> (r: Result<Self, ParseError>)
        ensures
            r is Ok <==> valid_path(path@),
            r matches Ok(loc) ==> loc@ == (default_namespace(), path@) && loc.wf(),
    {
        if Self::is_valid_path(path) {
            let namespace = "minecraft".to_owned();
            proof {
                reveal_strlit("minecraft");
                assert(namespace@ =~= default_namespace());
            }
            Ok(ResourceLocation { namespace, path: path.to_owned() })
        } else {
            Err(ParseError)
        }
    }

    /// Parses `namespace:path`, splitting at the first `:`; without a `:`
    /// the namespace is `minecraft`.
    pub fn parse(resource: &str) -> (r: Result<Self, ParseError>)
        ensures
            r is Ok <==> parse_spec(resource@) is Some,
            r matches Ok(loc) ==> Some(loc@) == parse_spec(resource@) && loc.wf(),
    {
        let n = resource.unicode_len();
        let mut i: usize = 0;
        while i < n && resource.get_char(i) != ':'
            invariant
                i <= n,
                n == resource@.len(),
                forall|j: int| 0 <= j < i ==> resource@[j] != ':',
            decreases n - i,
        {
            i = i + 1;
        }
        if i < n {
            proof {
                assert(is_first_colon(resource@, i as int));
                let c = choose|c: int| is_first_colon(resource@, c);
                assert(c == i);
            }
            let first = resource.substring_char(0, i);
            let second = resource.substring_char(i + 1, n);
            if !Self::is_valid_namespace(first) || !Self::is_valid_path(second) {
                return Err(ParseError);
            }
            Ok(ResourceLocation { namespace: first.to_owned(), path: second.to_owned() })
        } else {
            assert(!exists|c: int| is_first_colon(resource@, c));
            Self::minecraft(resource)
        }
    }

    fn is_valid_namespace(namespace: &str) -> (r: bool)
        ensures
            r == valid_namespace(namespace@),
    {
        let n = namespace.unicode_len();
        if n == 0 {
            return false;
        }
        let mut i: usize = 0;
        while i < n
            invariant
                i <= n,
                n == namespace@.len(),
                forall|j: int| 0 <= j < i ==> is_namespace_char(#[trigger] namespace@[j]),
            decreases n - i,
        {
            if !is_namespace_char_exec(namespace.get_char(i)) {
                return false;
            }
            i = i + 1;
        }
        true
    }

    fn is_valid_path(path: &str) -> (r: bool)
        ensures
            r == valid_path(path@),
    {
        let n = path.unicode_len();
        if n == 0 {
            return false;
        }
        let mut i: usize = 0;
        while i < n
            invariant
                i <= n,
                n == path@.len(),
                forall|j: int| 0 <= j < i ==> is_path_char(#[trigger] path@[j]),
            decreases n - i,
        {
            let c = path.get_char(i);
            if !(is_namespace_char_exec(c) || c == '/') {
                return false;
            }
            i = i + 1;
        }
        true
    }

    /// The canonical form `namespace:path`.
    pub fn to_string(&self) -> (r: String)
        ensures
            r@ == self@.0 + seq![':'] + self@.1,
    {
        let mut r = self.namespace.clone();
        r.append(":");
        r.append(self.path.as_str());
        proof {
            reveal_strlit(":");
        }
        r
    }

    /// Whether two identifiers have the same namespace and path.
    pub fn same_as(&self, other: &ResourceLocation) -> (r: bool)
        ensures
            r == (self@ == other@),
    {
        self.namespace == other.namespace && self.path == other.path
    }
}

impl std::str::FromStr for ResourceLocation {
    type Err = ParseError;

    fn from_str(s: &str) -> Result<Self, ParseError> {
        Self::parse(s)
    }
}

} // verus!
