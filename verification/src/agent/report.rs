//! Progress, as the application is told of it.

use vstd::prelude::*;

use crate::agent::message::{lines, log, nothing, say, Line, Message};
use crate::hci::{disconnect_reason, reason_text};
use crate::session::{News, Progress};
use crate::text::{decimal, hex, push_decimal, push_hex};
use crate::time::Duration;

verus! {

/// Whole seconds, as many as can be counted.
pub open spec fn whole_seconds(d: Duration) -> nat {
    if d.nanos / 1_000_000_000 <= u64::MAX {
        (d.nanos / 1_000_000_000) as nat
    } else {
        u64::MAX as nat
    }
}

/// What the application is told of a step. The capabilities arrive with a message
/// of their own a moment later, and a device that was found does, too.
pub open spec fn told(news: News) -> Seq<Line> {
    match news {
        News::AdapterReady { version, address } => seq![
            Line::Log("adapter "@ + version + ", "@ + address),
        ],
        News::Connected { handle } => seq![
            Line::Log("connected, handle "@ + hex(handle as nat, 4)),
        ],
        News::CapabilitiesRead { summary } => Seq::empty(),
        News::StreamPlanned { summary } => seq![Line::Log(summary)],
        News::Streaming { counters, backlog, underruns, quality } => seq![
            Line::Streaming { counters, backlog, underruns, quality },
        ],
        News::Battery { levels } => seq![Line::Battery { address: None, levels }],
        News::BatteryAsked { reason } => seq![
            Line::Log("battery level requested from the headphones ("@ + reason + ")"@),
        ],
        News::CaptureReady { device, format } => seq![
            Line::Log("zdroj zvuku: "@ + device + " - "@ + format),
        ],
        News::Idle { after } => seq![
            Line::Log(
                "silent for "@ + decimal(whole_seconds(after)) + " s, transmission paused"@,
            ),
        ],
        News::Yielded { after } => seq![
            Line::Log(
                "silent for "@ + decimal(whole_seconds(after))
                    + " s, handing the headphones back"@,
            ),
        ],
        News::Resumed => seq![Line::Log("audio resumed"@)],
        News::Disconnected { reason } => seq![
            Line::Log(
                "peer disconnected: "@ + reason_text(reason) + " (code "@ + hex(reason as nat, 2)
                    + ")"@,
            ),
        ],
        News::Stopped { reason } => seq![Line::Log(reason)],
        News::DeviceFound { name, address, rssi, le_audio } => Seq::empty(),
    }
}

/// Forwards a progress report to the application.
pub fn report(progress: Progress) -> (r: Vec<Message>)
    ensures
        lines(r@) == told(progress@),
{
    let ghost news = progress@;
    let mut out = nothing();
    let mut text = String::new();
    match progress {
        Progress::AdapterReady { version, address } => {
            text.append("adapter ");
            text.append(version.as_str());
            text.append(", ");
            text.append(address.as_str());
            assert(text@ =~= "adapter "@ + version@ + ", "@ + address@);
        },
        Progress::Connected { handle } => {
            text.append("connected, handle ");
            push_hex(&mut text, handle as u32, 4);
            assert(text@ =~= "connected, handle "@ + hex(handle as nat, 4));
        },
        Progress::StreamPlanned { summary } => {
            text = summary;
        },
        Progress::BatteryAsked { reason } => {
            text.append("battery level requested from the headphones (");
            text.append(reason.as_str());
            text.append(")");
            assert(text@ =~= "battery level requested from the headphones ("@ + reason@ + ")"@);
        },
        Progress::CaptureReady { device, format } => {
            text.append("zdroj zvuku: ");
            text.append(device.as_str());
            text.append(" - ");
            text.append(format.as_str());
            assert(text@ =~= "zdroj zvuku: "@ + device@ + " - "@ + format@);
        },
        Progress::Idle { after } => {
            text.append("silent for ");
            push_decimal(&mut text, after.as_secs());
            text.append(" s, transmission paused");
            assert(text@ =~= "silent for "@ + decimal(whole_seconds(after))
                + " s, transmission paused"@);
        },
        Progress::Yielded { after } => {
            text.append("silent for ");
            push_decimal(&mut text, after.as_secs());
            text.append(" s, handing the headphones back");
            assert(text@ =~= "silent for "@ + decimal(whole_seconds(after))
                + " s, handing the headphones back"@);
        },
        Progress::Resumed => {
            text.append("audio resumed");
            assert(text@ =~= "audio resumed"@);
        },
        Progress::Disconnected { reason } => {
            text.append("peer disconnected: ");
            text.append(disconnect_reason(reason));
            text.append(" (code ");
            push_hex(&mut text, reason as u32, 2);
            text.append(")");
            assert(text@ =~= "peer disconnected: "@ + reason_text(reason) + " (code "@ + hex(
                reason as nat,
                2,
            ) + ")"@);
        },
        Progress::Stopped { reason } => {
            text = reason;
        },
        Progress::Streaming { counters, backlog, underruns, quality } => {
            say(&mut out, Message::Streaming { counters, backlog, underruns, quality });
            return out;
        },
        Progress::Battery { levels } => {
            say(&mut out, Message::Battery { address: None, levels });
            return out;
        },
        Progress::CapabilitiesRead { summary } => {
            return out;
        },
        Progress::DeviceFound { name, address, rssi, le_audio } => {
            return out;
        },
    }
    log(&mut out, text.as_str());
    out
}

/// Every step is told with one line, but for two that have messages of their own. Seconds
/// are counted down to whole ones. Levels of the battery and the state of the stream are
/// handed on as they are.
pub proof fn lemma_steps_are_told(news: News, after: Duration, seconds: nat)
    requires
        seconds * 1_000_000_000 <= after.nanos < (seconds + 1) * 1_000_000_000,
        seconds <= u64::MAX,
    ensures
        told(news).len() == (if news is CapabilitiesRead || news is DeviceFound {
            0int
        } else {
            1
        }),
        news is Streaming <==> told(news).len() == 1 && told(news)[0] is Streaming,
        news is Battery <==> told(news).len() == 1 && told(news)[0] is Battery,
        news is Battery ==> told(news)[0] == (Line::Battery {
            address: None,
            levels: news->levels,
        }),
        whole_seconds(after) == seconds,
        told(News::Idle { after }) == seq![
            Line::Log("silent for "@ + decimal(seconds) + " s, transmission paused"@),
        ],
        told(News::Yielded { after }) == seq![
            Line::Log("silent for "@ + decimal(seconds) + " s, handing the headphones back"@),
        ],
{
}

} // verus!
