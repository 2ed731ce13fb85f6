//! Content types chosen by file extension.

use vstd::prelude::*;

verus! {

/// The content types this server names; anything else is `OctetStream`.
#[derive(Clone, Copy, Debug, PartialEq, Eq, Structural)]
pub enum MimeType {
    Html,
    Css,
    JavaScript,
    Json,
    Text,
    Png,
    Jpeg,
    Gif,
    Svg,
    Pdf,
    Wasm,
    OctetStream,
}

/// The bytes after the last `.` of `name`; `None` where there is no `.`.
pub open spec fn extension_of(name: Seq<u8>) -> Option<Seq<u8>>
    decreases name.len(),
{
    if name.len() == 0 {
        None
    } else if name.last() == 46 {
        Some(Seq::empty())
    } else {
        match extension_of(name.drop_last()) {
            Some(e) => Some(e.push(name.last())),
            None => None,
        }
    }
}

/// The content type of an extension, spelled in lower case.
pub open spec fn mime_of_extension(e: Seq<u8>) -> MimeType {
    if e == seq![104u8, 116u8, 109u8, 108u8] || e == seq![104u8, 116u8, 109u8] {
        MimeType::Html
    } else if e == seq![99u8, 115u8, 115u8] {
        MimeType::Css
    } else if e == seq![106u8, 115u8] || e == seq![109u8, 106u8, 115u8] {
        MimeType::JavaScript
    } else if e == seq![106u8, 115u8, 111u8, 110u8] {
        MimeType::Json
    } else if e == seq![116u8, 120u8, 116u8] {
        MimeType::Text
    } else if e == seq![112u8, 110u8, 103u8] {
        MimeType::Png
    } else if e == seq![106u8, 112u8, 103u8] || e == seq![106u8, 112u8, 101u8, 103u8] {
        MimeType::Jpeg
    } else if e == seq![103u8, 105u8, 102u8] {
        MimeType::Gif
    } else if e == seq![115u8, 118u8, 103u8] {
        MimeType::Svg
    } else if e == seq![112u8, 100u8, 102u8] {
        MimeType::Pdf
    } else if e == seq![119u8, 97u8, 115u8, 109u8] {
        MimeType::Wasm
    } else {
        MimeType::OctetStream
    }
}

/// The content type of a file called `name`.
pub open spec fn mime_of_name(name: Seq<u8>) -> MimeType {
    match extension_of(name) {
        Some(e) => mime_of_extension(e),
        None => MimeType::OctetStream,
    }
}

impl MimeType {
    /// The media type as sent in `Content-Type`.
    pub fn as_str(&self) -> &'static str {
        match self {
            MimeType::Html => "text/html; charset=utf-8",
            MimeType::Css => "text/css; charset=utf-8",
            MimeType::JavaScript => "text/javascript; charset=utf-8",
            MimeType::Json => "application/json",
            MimeType::Text => "text/plain; charset=utf-8",
            MimeType::Png => "image/png",
            MimeType::Jpeg => "image/jpeg",
            MimeType::Gif => "image/gif",
            MimeType::Svg => "image/svg+xml",
            MimeType::Pdf => "application/pdf",
            MimeType::Wasm => "application/wasm",
            MimeType::OctetStream => "application/octet-stream",
        }
    }
}

/// `s[start..]` holds exactly the bytes `word`.
fn tail_is(s: &[u8], start: usize, word: &[u8]) -> (r: bool)
    requires
        start <= s@.len(),
    ensures
        r == (s@.skip(start as int) == word@),
{
    let n = s.len();
    if n - start != word.len() {
        assert(s@.skip(start as int).len() != word@.len());
        return false;
    }
    let mut i: usize = 0;
    while i < word.len()
        invariant
            start <= n == s@.len(),
            n - start == word@.len(),
            i <= word@.len(),
            forall|j: int| 0 <= j < i ==> s@[start + j] == word@[j],
        decreases word@.len() - i,
    {
        if s[start + i] != word[i] {
            assert(s@.skip(start as int)[i as int] != word@[i as int]);
            return false;
        }
        i = i + 1;
    }
    assert(s@.skip(start as int) =~= word@);
    true
}

proof fn lemma_extension_after(name: Seq<u8>, k: int)
    requires
        0 <= k < name.len(),
        name[k] == 46,
        forall|j: int| k < j < name.len() ==> name[j] != 46,
    ensures
        extension_of(name) == Some(name.skip(k + 1)),
    decreases name.len(),
{
    if k < name.len() - 1 {
        lemma_extension_after(name.drop_last(), k);
        assert(name.drop_last().skip(k + 1).push(name.last()) =~= name.skip(k + 1));
    } else {
        assert(name.skip(k + 1) =~= Seq::<u8>::empty());
    }
}

proof fn lemma_no_extension(name: Seq<u8>)
    requires
        forall|j: int| 0 <= j < name.len() ==> name[j] != 46,
    ensures
        extension_of(name) is None,
    decreases name.len(),
{
    if name.len() > 0 {
        lemma_no_extension(name.drop_last());
    }
}

/// The content type of a file called `name`, by its extension.
pub fn mime_for_name(name: &[u8]) -> (m: MimeType)
    ensures
        m == mime_of_name(name@),
{
    let n = name.len();
    let mut k: usize = n;
    while k > 0 && name[k - 1] != 46
        invariant
            k <= n == name@.len(),
            forall|j: int| k <= j < n ==> name@[j] != 46,
        decreases k,
    {
        k = k - 1;
    }
    if k == 0 {
        proof {
            lemma_no_extension(name@);
        }
        return MimeType::OctetStream;
    }
    proof {
        lemma_extension_after(name@, k - 1);
    }
    let ghost e = name@.skip(k as int);
    if tail_is(name, k, &[104u8, 116u8, 109u8, 108u8]) || tail_is(name, k, &[104u8, 116u8, 109u8]) {
        MimeType::Html
    } else if tail_is(name, k, &[99u8, 115u8, 115u8]) {
        MimeType::Css
    } else if tail_is(name, k, &[106u8, 115u8]) || tail_is(name, k, &[109u8, 106u8, 115u8]) {
        MimeType::JavaScript
    } else if tail_is(name, k, &[106u8, 115u8, 111u8, 110u8]) {
        MimeType::Json
    } else if tail_is(name, k, &[116u8, 120u8, 116u8]) {
        MimeType::Text
    } else if tail_is(name, k, &[112u8, 110u8, 103u8]) {
        MimeType::Png
    } else if tail_is(name, k, &[106u8, 112u8, 103u8]) || tail_is(name, k, &[106u8, 112u8, 101u8, 103u8]) {
        MimeType::Jpeg
    } else if tail_is(name, k, &[103u8, 105u8, 102u8]) {
        MimeType::Gif
    } else if tail_is(name, k, &[115u8, 118u8, 103u8]) {
        MimeType::Svg
    } else if tail_is(name, k, &[112u8, 100u8, 102u8]) {
        MimeType::Pdf
    } else if tail_is(name, k, &[119u8, 97u8, 115u8, 109u8]) {
        MimeType::Wasm
    } else {
        MimeType::OctetStream
    }
}

} // verus!
