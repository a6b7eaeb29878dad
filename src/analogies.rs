//! Analogy test files: sections of analogy instances, one instance per line.
use vstd::prelude::*;

use crate::text::{split_words, views, words};

verus! {

/// One analogy test instance: `query.0` is to `query.1` as `query.2` is to `answer`.
pub struct Instance {
    /// Index of the instance's section in `AnalogyFile::sections`.
    pub section: usize,
    pub query: (String, String, String),
    pub answer: String,
}

/// The instances of an analogy test file together with the labels of their sections.
pub struct AnalogyFile {
    /// Section labels, each once, in the order in which their first instance occurs.
    pub sections: Vec<String>,
    pub instances: Vec<Instance>,
}

/// A line that is neither a section header nor four tokens.
#[derive(Clone, Copy, Debug, PartialEq, Eq, Structural)]
pub struct MalformedLine {
    /// Index of the line, counted from zero.
    pub line: usize,
}

/// Whether a line opens a section: it starts with a colon and a space.
pub open spec fn is_header(line: Seq<char>) -> bool {
    line.len() >= 2 && line[0] == ':' && line[1] == ' '
}

/// The label of a section header.
pub open spec fn header_label(line: Seq<char>) -> Seq<char> {
    line.skip(2)
}

/// The label of the section that line `i` belongs to: that of the last header
/// before it, or the empty label when there is none.
pub open spec fn section_at(lines: Seq<Seq<char>>, i: int) -> Seq<char>
    decreases i,
{
    if i <= 0 {
        Seq::empty()
    } else if is_header(lines[i - 1]) {
        header_label(lines[i - 1])
    } else {
        section_at(lines, i - 1)
    }
}

/// Whether a line is an instance line with fewer than four tokens.
pub open spec fn malformed(line: Seq<char>) -> bool {
    !is_header(line) && words(line).len() < 4
}

/// The instances that the first `n` lines hold, each as its section label and its tokens.
pub open spec fn instances_of(lines: Seq<Seq<char>>, n: int) -> Seq<(Seq<char>, Seq<Seq<char>>)>
    decreases n,
{
    if n <= 0 {
        Seq::empty()
    } else if is_header(lines[n - 1]) {
        instances_of(lines, n - 1)
    } else {
        instances_of(lines, n - 1).push((section_at(lines, n - 1), words(lines[n - 1])))
    }
}

impl Instance {
    /// Whether the instance holds the section label and the tokens of `m`.
    pub open spec fn models(&self, sections: Seq<String>, m: (Seq<char>, Seq<Seq<char>>)) -> bool {
        &&& self.section < sections.len()
        &&& sections[self.section as int]@ == m.0
        &&& m.1.len() >= 4
        &&& self.query.0@ == m.1[0]
        &&& self.query.1@ == m.1[1]
        &&& self.query.2@ == m.1[2]
        &&& self.answer@ == m.1[3]
    }
}

/// Whether some instance belongs to section `s`.
pub open spec fn used(instances: Seq<Instance>, s: int) -> bool {
    exists|j: int| 0 <= j < instances.len() && #[trigger] instances[j].section == s
}

impl AnalogyFile {
    /// Section labels are distinct, every instance names a section, and every
    /// section has an instance.
    pub open spec fn wf(&self) -> bool {
        &&& forall|s: int, t: int|
            0 <= s < t < self.sections@.len() ==> self.sections@[s]@ != self.sections@[t]@
        &&& forall|j: int|
            0 <= j < self.instances@.len() ==> #[trigger] self.instances@[j].section
                < self.sections@.len()
        &&& forall|s: int| 0 <= s < self.sections@.len() ==> #[trigger] used(self.instances@, s)
    }

    /// Whether the file holds exactly the instances of `lines`, in order.
    pub open spec fn models(&self, lines: Seq<Seq<char>>) -> bool {
        let ms = instances_of(lines, lines.len() as int);
        &&& self.instances@.len() == ms.len()
        &&& forall|j: int|
            0 <= j < ms.len() ==> #[trigger] self.instances@[j].models(self.sections@, ms[j])
    }
}

/// The character sequences of a list of lines.
pub open spec fn line_views(lines: Seq<String>) -> Seq<Seq<char>> {
    lines.map_values(|l: String| l@)
}

/// Index of the section labelled `label`, adding the label at the end when it is new.
fn section_index(sections: &mut Vec<String>, label: &String) -> (r: usize)
    ensures
        r < final(sections)@.len(),
        final(sections)@[r as int]@ == label@,
        final(sections)@.len() == old(sections)@.len() || (final(sections)@.len() == old(
            sections,
        )@.len() + 1 && r == old(sections)@.len() && forall|s: int|
            0 <= s < old(sections)@.len() ==> old(sections)@[s]@ != label@),
        forall|s: int| 0 <= s < old(sections)@.len() ==> final(sections)@[s] == old(sections)@[s],
{
    let mut s: usize = 0;
    while s < sections.len()
        invariant
            s <= sections@.len(),
            sections@ == old(sections)@,
            forall|t: int| 0 <= t < s ==> sections@[t]@ != label@,
        decreases sections@.len() - s,
    {
        if sections[s] == *label {
            return s;
        }
        s = s + 1;
    }
    sections.push(label.clone());
    s
}

/// Reads the instances of an analogy test file from its lines. A line that
/// starts with `": "` opens a section whose label is the rest of the line;
/// any other line is an instance whose first four tokens are the query and
/// the answer. Fails at the first line that is neither.
pub fn read_analogies(lines: &Vec<String>) -> (r: Result<AnalogyFile, MalformedLine>)
    ensures
        match r {
            Ok(file) => {
                &&& file.wf()
                &&& file.models(line_views(lines@))
                &&& forall|i: int| 0 <= i < lines@.len() ==> !malformed(#[trigger] lines@[i]@)
            },
            Err(e) => {
                &&& e.line < lines@.len()
                &&& malformed(lines@[e.line as int]@)
                &&& forall|i: int| 0 <= i < e.line ==> !malformed(#[trigger] lines@[i]@)
            },
        },
{
    let ghost ls = line_views(lines@);
    let mut section = String::new();
    let mut sections: Vec<String> = Vec::new();
    let mut instances: Vec<Instance> = Vec::new();
    let mut i: usize = 0;
    while i < lines.len()
        invariant
            i <= lines@.len(),
            ls == line_views(lines@),
            section@ == section_at(ls, i as int),
            instances@.len() == instances_of(ls, i as int).len(),
            forall|j: int|
                0 <= j < instances@.len() ==> #[trigger] instances@[j].models(
                    sections@,
                    instances_of(ls, i as int)[j],
                ),
            forall|s: int, t: int|
                0 <= s < t < sections@.len() ==> sections@[s]@ != sections@[t]@,
            forall|s: int| 0 <= s < sections@.len() ==> #[trigger] used(instances@, s),
            forall|j: int|
                0 <= j < instances@.len() ==> #[trigger] instances@[j].section < sections@.len(),
            forall|k: int| 0 <= k < i ==> !malformed(#[trigger] lines@[k]@),
        decreases lines@.len() - i,
    {
        let line = &lines[i];
        assert(ls[i as int] == line@);
        let n = line.unicode_len();
        if n >= 2 && line.get_char(0) == ':' && line.get_char(1) == ' ' {
            section = line.substring_char(2, n).to_owned();
            assert(section@ =~= header_label(line@));
        } else {
            let tokens = split_words(line.as_str());
            assert(views(tokens@).len() == tokens@.len());
            if tokens.len() < 4 {
                return Err(MalformedLine { line: i });
            }
            assert(views(tokens@)[0] == tokens@[0]@);
            let ghost old_sections = sections@;
            let ghost old_instances = instances@;
            let s = section_index(&mut sections, &section);
            let inst = Instance {
                section: s,
                query: (tokens[0].clone(), tokens[1].clone(), tokens[2].clone()),
                answer: tokens[3].clone(),
            };
            proof {
                assert(views(tokens@)[1] == tokens@[1]@);
                assert(views(tokens@)[2] == tokens@[2]@);
                assert(views(tokens@)[3] == tokens@[3]@);
            }
            instances.push(inst);
            proof {
                let ms = instances_of(ls, i + 1);
                assert(ms == instances_of(ls, i as int).push((section_at(ls, i as int), words(line@))));
                assert forall|j: int| 0 <= j < instances@.len() implies #[trigger] instances@[j].models(
                    sections@,
                    ms[j],
                ) by {
                    if j < old_instances.len() {
                        assert(instances@[j] == old_instances[j]);
                        assert(old_instances[j].section < old_sections.len());
                        assert(old_instances[j].models(old_sections, instances_of(ls, i as int)[j]));
                    }
                }
                assert forall|s: int| 0 <= s < sections@.len() implies #[trigger] used(instances@, s) by {
                    if s < old_sections.len() {
                        assert(used(old_instances, s));
                        let j = choose|j: int|
                            0 <= j < old_instances.len() && #[trigger] old_instances[j].section == s;
                        assert(instances@[j] == old_instances[j]);
                    } else {
                        assert(instances@[old_instances.len() as int].section == s);
                    }
                }
            }
        }
        i = i + 1;
    }
    assert(ls.len() == lines@.len());
    let file = AnalogyFile { sections, instances };
    Ok(file)
}

} // verus!
