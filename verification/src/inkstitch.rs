//! Assembling a design from what an Ink/Stitch JSON export holds: its
//! thread list, its name and its stitch rows (positions already scaled,
//! centred and rounded).

use vstd::prelude::*;
use crate::model::{inkstitch_command, Design, StitchCommand, StitchPoint, Thread};
use crate::text::trim;

verus! {

/// Why an export cannot become a design.
#[derive(Debug, Clone, Copy, PartialEq, Eq, Structural)]
pub enum DesignLoadError {
    /// The export has no stitch rows.
    NoStitches,
}

/// The name a design takes: the export's name unless it is blank, else
/// the fallback (the file's stem).
pub open spec fn design_name(extras: Option<Seq<char>>, fallback: Seq<char>) -> Seq<char> {
    match extras {
        Some(n) => if trim(n).len() > 0 {
            n
        } else {
            fallback
        },
        None => fallback,
    }
}

/// The thread list, or one black thread when the export lists none.
pub open spec fn threads_ok(r: Seq<Thread>, given: Seq<Thread>) -> bool {
    if given.len() > 0 {
        r == given
    } else {
        &&& r.len() == 1
        &&& r[0].color matches Some(c) && c@ == "#000000"@
        &&& r[0].description matches Some(d) && d@ == "Black"@
        &&& r[0].catalog_number is None
        &&& r[0].brand is None
    }
}

/// The point a stitch row becomes.
pub open spec fn row_point(p: StitchPoint, row: (i32, i32, String)) -> bool {
    p.x == row.0 && p.y == row.1 && p.command@ == inkstitch_command(row.2@)
}

/// A design from an export's parts: the name (the export's unless blank),
/// the threads (one black thread when none is listed) and one point per
/// stitch row with its command read from the row's command text.
pub fn assemble_design(
    extras_name: Option<String>,
    fallback_name: String,
    threads: Vec<Thread>,
    rows: Vec<(i32, i32, String)>,
) -> (r: Result<Design, DesignLoadError>)
    ensures
        rows@.len() == 0 ==> r == Err::<Design, DesignLoadError>(DesignLoadError::NoStitches),
        rows@.len() > 0 ==> (r matches Ok(d) && d.name@ == design_name(
            match extras_name {
                Some(n) => Some(n@),
                None => None,
            },
            fallback_name@,
        ) && threads_ok(d.threads@, threads@) && d.points@.len() == rows@.len() && forall|k: int|
            0 <= k < rows@.len() ==> row_point(#[trigger] d.points@[k], rows@[k])),
{
    if rows.len() == 0 {
        return Err(DesignLoadError::NoStitches);
    }
    let ghost input = rows@;
    let mut points: Vec<StitchPoint> = Vec::new();
    for row in it: rows.into_iter()
        invariant
            it.seq() == input,
            points@.len() == it.index(),
            forall|k: int| 0 <= k < points@.len() ==> row_point(#[trigger] points@[k], input[k]),
    {
        let (x, y, text) = row;
        let command = StitchCommand::from_inkstitch_str(text.as_str());
        let ghost before = points@;
        points.push(StitchPoint { x, y, command });
        assert(forall|k: int| 0 <= k < before.len() ==> points@[k] == before[k]);
    }
    let mut threads = threads;
    if threads.len() == 0 {
        threads.push(
            Thread {
                color: Some(String::from_str("#000000")),
                description: Some(String::from_str("Black")),
                catalog_number: None,
                brand: None,
            },
        );
    }
    let name = match extras_name {
        Some(n) => {
            let t = crate::text::trim_chars(&crate::text::str_chars(n.as_str()));
            if t.len() > 0 {
                n
            } else {
                fallback_name
            }
        },
        None => fallback_name,
    };
    Ok(Design { name, threads, points })
}

} // verus!
