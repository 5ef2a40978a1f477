//! Streams that arrive as messages on an IBM MQ queue. One message is one
//! Stream.
//!
//! MQ is the queue of every bank and every airline that had a mainframe,
//! and its client protocol is what a connection to a queue manager speaks
//! on port 1414: transmission segments ([`segment`]) carrying the initial
//! data two sides agree sizes with, then `MQCONN`, `MQOPEN`, `MQPUT`,
//! `MQGET`, `MQCLOSE` and `MQDISC`, each with the structures the MQI
//! declares ([`descriptor`]) — the message descriptor, the put and get
//! options, the object descriptor. A Receive Location connects, opens its
//! queue for input and gets until the queue manager says `2033`, no
//! message available, each message a Stream with the id MQ gave it; a
//! Send Location connects, opens for output and puts the Stream as one
//! datagram ([`location`]). [`client`] is Xmip's side of the calls;
//! [`manager`] is the queue manager a test or the playground puts at the
//! far end. No channel exit, no user identification record and no TLS are
//! spoken; a queue manager that demands them refuses the connection with
//! its reason, and this transport says so.
//!
//! A message got is gone from the queue. The ceiling is the queue
//! manager's `MAXMSGL`, four mebibytes unless it says otherwise in its
//! initial data, and a Stream over it is refused before a byte is written.
//!
//! The origin URI is the queue manager and queue with the message id:
//! `ibm-mq://host:1414/QM1/ORDERS?msgid=414d5120...`. A send target
//! ([`target`]) is `ibm-mq://host:1414/<queue manager>/<queue>`,
//! `host:1414/<queue manager>/<queue>`, `<queue manager>/<queue>` on the
//! configured server, or `<queue>` on the configured queue manager.
//!
//! Nothing here touches a socket: each side takes the segments it was sent
//! and gives back the segments to send. What holds between the two sides
//! is proved in [`conversation`], call by call, in [`succession`], over
//! calls in a row, and in [`exchange`], for a whole receive or send. What
//! each operation does by itself is said in [`laws`], byte by byte.

pub mod arrived;
pub mod client;
pub mod conversation;
pub mod descriptor;
pub mod error;
pub mod exchange;
pub mod laws;
pub mod location;
pub mod manager;
pub mod segment;
pub mod succession;
pub mod target;
pub mod text;

pub use arrived::Arrived;
pub use client::{Client, DEFAULT_CHANNEL, DEFAULT_MAX_MESSAGE};
pub use error::TransportError;
pub use location::IbmMqTransport;
pub use manager::{Event, QueueManager, Session};
