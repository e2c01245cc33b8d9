# streamd_server

The verified core of the streamd remote-desktop host, written in Verus.

* `src/transport/video_tx.rs` cuts encoded video frames into UDP datagrams
  (18-byte little-endian header plus a run of slice bytes) and proves that
  the payloads reassemble the slices, that every datagram fits the MTU, that
  the header fields read back, and where the key-frame and last-slice flags
  fall.
* `src/capture/windows.rs` holds the decisions of the DXGI desktop
  duplication back end: pixel format mapping, display naming, enumeration
  and selection, staging texture planning, the capture loop's next step,
  and the repacking of a mapped frame into tight rows.
* `src/text.rs` has the string helpers those use (decimal formatting,
  Unicode whitespace trimming, comparison by characters).
* `app/` is ordinary Rust around it: command line, TLS provider and logging
  set-up, the UDP socket, and the Windows API calls of the capture back end.
