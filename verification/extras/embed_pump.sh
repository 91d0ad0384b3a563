#!/bin/sh
# Folds the device half into the host half, so that a release is one file:
#
#   extras/embed_pump.sh path/to/armv7/kaipump > app/image.rs
#
set -e
cat <<'HEAD'
//! The device pump that this program installs on the phone.

/// Empty in a build without one, which says so when it comes to installing it.
HEAD
echo 'pub static PUMP: &[u8] = &['
od -An -v -tu1 "$1" | sed 's/\([0-9][0-9]*\)/\1,/g'
echo '];'
