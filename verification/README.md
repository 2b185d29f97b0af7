# argon40

Services for Argon40 cases and HATs on a Raspberry Pi: fan policy, power button, OLED pages,
real-time clock, schedules and firmware packets. What the library decides and calculates is stated
in contracts and proved with Verus.

## Layout

- `src/`: the verified library.
  - `text`, `calendar`, `clock`, `single`, `outcome`: characters, dates, times, single-precision
    numbers and errors.
  - `button`, `fan`, `oled`, `pages`, `schedule`, `config`: the rules and formats of the case.
  - `hardware`, `rtc`, `firmware`, `ir`: what is said to the devices, byte by byte.
  - `system_info`: the tables of the kernel.
  - `daemon`, `shutdown`, `ctl`: what the programs decide.
- `tests/`: the library at work on concrete values.
- `app/`: the programs `argon40d`, `argon40ctl` and `argon40-shutdown`, which read, wait and write.

## How contracts speak of devices

A device is known by what is asked of it. `hardware::I2cDevice::step` says which state a single
transaction can lead to, and with which error where it fails. A driver's contract gives the
transactions it carries out as a script, and `hardware::ran` says that the script was carried out
to its end, or up to the transaction that failed with the error that the driver hands back, and
not beyond it.

The fan and the host are known in the same way, by `fan::FanOutput::applied` and
`button::HostPower::step`. A function that has to wait is handed the wait as a closure, which also
sees the device. Its contract asks for leave to call the closure only in the states in which it
waits, and says that it was called there.

Laws that relate several functions are public proof functions whose names begin with `law_`.
