//! The citation styles that are built in, by name.

use vstd::prelude::*;
use crate::text::str_eq;

verus! {

/// A style that names the author and the year in parentheses.
pub const MINIMAL_STYLE: &'static str = "<?xml version=\"1.0\" encoding=\"utf-8\"?>
<style xmlns=\"http://purl.org/net/xbiblio/csl\" class=\"in-text\" version=\"1.0\">
  <info>
    <title>Minimal Style</title>
    <id>minimal</id>
    <updated>2024-01-01T00:00:00+00:00</updated>
  </info>
  <citation>
    <layout prefix=\"(\" suffix=\")\" delimiter=\"; \">
      <names variable=\"author\">
        <name form=\"short\"/>
      </names>
      <text prefix=\", \" variable=\"issued\" date-parts=\"year\"/>
    </layout>
  </citation>
  <bibliography>
    <layout>
      <names variable=\"author\"/>
      <text variable=\"title\"/>
    </layout>
  </bibliography>
</style>";

/// A numeric style after the Vancouver system: citations are numbers in
/// the order of first appearance, authors are written family name first with
/// initials, and from seven authors on the first six are named.
pub const VANCOUVER_STYLE: &'static str = "<?xml version=\"1.0\" encoding=\"utf-8\"?>
<style xmlns=\"http://purl.org/net/xbiblio/csl\" class=\"in-text\" version=\"1.0\">
  <info>
    <title>Vancouver</title>
    <id>vancouver</id>
    <updated>2024-01-01T00:00:00+00:00</updated>
  </info>
  <macro name=\"author\">
    <names variable=\"author\">
      <name sort-separator=\" \" initialize-with=\"\" name-as-sort-order=\"all\" delimiter=\", \" delimiter-precedes-last=\"always\"/>
    </names>
  </macro>
  <citation collapse=\"citation-number\">
    <sort>
      <key variable=\"citation-number\"/>
    </sort>
    <layout prefix=\"(\" suffix=\")\" delimiter=\",\">
      <text variable=\"citation-number\"/>
    </layout>
  </citation>
  <bibliography et-al-min=\"7\" et-al-use-first=\"6\" second-field-align=\"flush\">
    <layout>
      <text variable=\"citation-number\" suffix=\". \"/>
      <text macro=\"author\" suffix=\". \"/>
      <text variable=\"title\" suffix=\". \"/>
      <text variable=\"container-title\" suffix=\". \"/>
      <date variable=\"issued\">
        <date-part name=\"year\"/>
      </date>
      <text variable=\"volume\" prefix=\";\"/>
      <text variable=\"page\" prefix=\":\"/>
      <text value=\".\"/>
    </layout>
  </bibliography>
</style>";

/// The style that `name` names, if it names one.
pub open spec fn builtin_style_text(name: Seq<char>) -> Option<Seq<char>> {
    if name == "minimal"@ {
        Some(MINIMAL_STYLE@)
    } else if name == "vancouver"@ {
        Some(VANCOUVER_STYLE@)
    } else {
        None
    }
}

/// Returns a built-in style by name.
pub fn builtin_style(name: &str) -> (r: Option<&'static str>)
    ensures
        match r {
            Some(style) => builtin_style_text(name@) == Some(style@),
            None => builtin_style_text(name@) is None,
        },
{
    if str_eq(name, "minimal") {
        Some(MINIMAL_STYLE)
    } else if str_eq(name, "vancouver") {
        Some(VANCOUVER_STYLE)
    } else {
        None
    }
}

/// Returns the list of available builtin style names. Each of them names a
/// style.
pub fn builtin_style_names() -> (r: Vec<&'static str>)
    ensures
        r@.len() == 2,
        r@[0]@ == "minimal"@,
        r@[1]@ == "vancouver"@,
        forall|i: int| 0 <= i < r@.len() ==> builtin_style_text((#[trigger] r@[i])@) is Some,
{
    let mut names: Vec<&'static str> = Vec::new();
    names.push("minimal");
    names.push("vancouver");
    names
}

} // verus!
