//! The list of the user's devices.

use vstd::prelude::*;
use vstd::string::*;

use crate::text::embedded;

verus! {

/// The heading of the list.
pub const HEADING: &'static str = "ID\tDevice name\tverified\tcurrent";

/// What is shown of whether a device is verified: `None` if that is not known.
pub open spec fn verified_text(verified: Option<bool>) -> Seq<char> {
    match verified {
        None => "unknown"@,
        Some(true) => "true"@,
        Some(false) => "false"@,
    }
}

/// The line of a device.
pub open spec fn device_text(
    id: Seq<char>,
    name: Option<Seq<char>>,
    verified: Option<bool>,
    current: Seq<char>,
) -> Seq<char> {
    id + "\t"@ + (match name {
        Some(name) => name,
        None => ""@,
    }) + "\t"@ + verified_text(verified) + (if id == current {
        "\t*"@
    } else {
        ""@
    })
}

/// The line of a device: its id, its name if it has one, whether it is verified, and a mark if it
/// is this device.
pub fn device_line(
    device_id: &str,
    display_name: Option<&str>,
    verified: Option<bool>,
    current_device: &str,
) -> (res: String)
    ensures
        res@ == device_text(
            device_id@,
            match display_name {
                Some(name) => Some(name@),
                None => None,
            },
            verified,
            current_device@,
        ),
{
    let name = match display_name {
        Some(name) => name,
        None => "",
    };
    let mut out = embedded(device_id, "\t", name);
    out.append("\t");
    out.append(
        match verified {
            None => "unknown",
            Some(true) => "true",
            Some(false) => "false",
        },
    );
    out.append(
        if crate::text::same(device_id, current_device) {
            "\t*"
        } else {
            ""
        },
    );
    out
}

/// The line of a device begins with its id, and ends with a star exactly if it is this device.
/// Between tabs it holds the name, and it tells apart whether the device is verified, is not, or
/// whether that is not known.
pub proof fn law_line_marks_this_device(
    id: Seq<char>,
    name: Option<Seq<char>>,
    verified: Option<bool>,
    other: Option<bool>,
    current: Seq<char>,
)
    ensures
        ({
            let line = device_text(id, name, verified, current);
            let shown = match name {
                Some(n) => n,
                None => Seq::empty(),
            };
            &&& line.len() > 0
            &&& line.last() == '*' <==> id == current
            &&& line.take((id.len() + shown.len() + 2) as int) == id + seq!['\t'] + shown + seq!['\t']
            &&& device_text(id, name, other, current) == line ==> other == verified
        }),
{
    reveal_strlit("\t");
    reveal_strlit("\t*");
    reveal_strlit("");
    reveal_strlit("unknown");
    reveal_strlit("true");
    reveal_strlit("false");
    let line = device_text(id, name, verified, current);
    let shown = match name {
        Some(n) => n,
        None => Seq::empty(),
    };
    let changed = device_text(id, name, other, current);
    assert(other != verified ==> changed.len() != line.len());
    assert("\t"@ =~= seq!['\t']);
    assert(line.take((id.len() + shown.len() + 2) as int) =~= id + seq!['\t'] + shown + seq!['\t']);
}

} // verus!
